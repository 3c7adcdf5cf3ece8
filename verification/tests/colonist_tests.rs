use colony::colonists::animations::{animator_update, is_one_shot, AnimClip, AnimState, Animator};
use colony::colonists::behavior::{
    behavior_tick, task_state_of, Behavior, BehaviorNode, BehaviorNodeState, NodeState, TaskCommand, TaskState,
};
use colony::colonists::behaviors::job_scoring::{
    any_item_has_tags, item_score, manhattan_distance, pick_nearest_job, score_job, FreeItem, JobCandidate, ScoreLevel,
};
use colony::colonists::brain::{brain_pick_act, ActState, ActSwitch, Behavior as BrainBehavior};
use colony::colonists::inventory::{test_item_tags, ItemTag};
use colony::colonists::jobs::job::{job_access_points as access_points, job_access_points_many, JobType};
use colony::colonists::jobs::{job_access_points, JobType as FirstJobType};

fn task(i: usize) -> BehaviorNode {
    BehaviorNode::Task(i)
}

#[test]
fn sequence_runs_children_in_turn() {
    let mut tree = BehaviorNodeState::new(BehaviorNode::Sequence(vec![task(0), task(1)]));
    let mut cmds = Vec::new();
    assert_eq!(tree.run(TaskState::Success, &mut cmds), NodeState::Executing);
    assert_eq!(cmds, vec![TaskCommand::Insert(0)]);
    cmds.clear();
    assert_eq!(tree.run(TaskState::Success, &mut cmds), NodeState::Executing);
    assert_eq!(cmds, vec![TaskCommand::Remove(0), TaskCommand::Insert(1)]);
    cmds.clear();
    assert_eq!(tree.run(TaskState::Success, &mut cmds), NodeState::Success);
    assert_eq!(cmds, vec![TaskCommand::Remove(1)]);
    assert_eq!(tree.state(), NodeState::Success);
}

#[test]
fn sequence_stops_at_the_first_failure() {
    let mut tree = BehaviorNodeState::new(BehaviorNode::Sequence(vec![task(0), task(1)]));
    let mut cmds = Vec::new();
    tree.run(TaskState::Success, &mut cmds);
    cmds.clear();
    assert_eq!(tree.run(TaskState::Failed, &mut cmds), NodeState::Failed);
    assert_eq!(cmds, vec![TaskCommand::Remove(0)]);
    cmds.clear();
    assert_eq!(tree.run(TaskState::Success, &mut cmds), NodeState::Failed);
    assert!(cmds.is_empty());
}

#[test]
fn try_falls_back_to_the_catch() {
    let mut tree = BehaviorNodeState::new(BehaviorNode::Try(Box::new(task(0)), Box::new(task(1))));
    let mut cmds = Vec::new();
    assert_eq!(tree.run(TaskState::Success, &mut cmds), NodeState::Executing);
    assert_eq!(tree.run(TaskState::Failed, &mut cmds), NodeState::Executing);
    assert_eq!(cmds, vec![TaskCommand::Insert(0), TaskCommand::Remove(0), TaskCommand::Insert(1)]);
    assert_eq!(tree.run(TaskState::Success, &mut cmds), NodeState::Success);
}

#[test]
fn select_stops_at_the_first_success() {
    let mut tree = BehaviorNodeState::new(BehaviorNode::Select(vec![task(3), task(4)]));
    let mut cmds = Vec::new();
    tree.run(TaskState::Success, &mut cmds);
    assert_eq!(tree.run(TaskState::Failed, &mut cmds), NodeState::Executing);
    assert_eq!(tree.run(TaskState::Success, &mut cmds), NodeState::Success);
    assert_eq!(
        cmds,
        vec![TaskCommand::Insert(3), TaskCommand::Remove(3), TaskCommand::Insert(4), TaskCommand::Remove(4)]
    );
}

#[test]
fn if_else_takes_the_branch_the_condition_picks() {
    let mut tree = BehaviorNodeState::new(BehaviorNode::IfElse(Box::new(task(0)), Box::new(task(1)), Box::new(task(2))));
    let mut cmds = Vec::new();
    tree.run(TaskState::Success, &mut cmds);
    assert_eq!(tree.run(TaskState::Failed, &mut cmds), NodeState::Executing);
    assert_eq!(cmds, vec![TaskCommand::Insert(0), TaskCommand::Remove(0), TaskCommand::Insert(2)]);
}

#[test]
fn if_else_runs_like_a_try_of_a_sequence() {
    let mut if_else = BehaviorNodeState::new(BehaviorNode::IfElse(Box::new(task(0)), Box::new(task(1)), Box::new(task(2))));
    let mut try_seq = BehaviorNodeState::new(BehaviorNode::Try(
        Box::new(BehaviorNode::Sequence(vec![task(0), task(1)])),
        Box::new(task(2)),
    ));
    for reports in [
        vec![TaskState::Success, TaskState::Success, TaskState::Executing, TaskState::Success],
        vec![TaskState::Success, TaskState::Failed, TaskState::Failed],
    ] {
        if_else.reset();
        try_seq.reset();
        for report in reports {
            let mut c1 = Vec::new();
            let mut c2 = Vec::new();
            assert_eq!(if_else.run(report, &mut c1), try_seq.run(report, &mut c2));
            assert_eq!(c1, c2);
        }
        assert_eq!(if_else.state(), try_seq.state());
    }
}

#[test]
fn not_returns_the_opposite_of_its_child() {
    let mut tree = BehaviorNodeState::new(BehaviorNode::Not(Box::new(task(5))));
    assert!(matches!(&tree, BehaviorNodeState::Not(NodeState::NotStarted, _)));
    let mut cmds = Vec::new();
    assert_eq!(tree.run(TaskState::Success, &mut cmds), NodeState::Executing);
    assert_eq!(tree.run(TaskState::Success, &mut cmds), NodeState::Failed);
    assert_eq!(cmds, vec![TaskCommand::Insert(5), TaskCommand::Remove(5)]);
    let mut other = BehaviorNodeState::new(BehaviorNode::Not(Box::new(task(6))));
    other.run(TaskState::Success, &mut cmds);
    assert_eq!(other.run(TaskState::Failed, &mut cmds), NodeState::Success);
}

#[test]
fn empty_sequence_succeeds_and_empty_select_fails() {
    let mut cmds = Vec::new();
    let mut seq = BehaviorNodeState::new(BehaviorNode::Sequence(vec![]));
    assert_eq!(seq.run(TaskState::Executing, &mut cmds), NodeState::Success);
    let mut sel = BehaviorNodeState::new(BehaviorNode::Select(vec![]));
    assert_eq!(sel.run(TaskState::Executing, &mut cmds), NodeState::Failed);
    assert!(cmds.is_empty());
}

#[test]
fn reset_restarts_a_finished_tree() {
    let mut tree = BehaviorNodeState::new(BehaviorNode::Sequence(vec![task(0)]));
    let mut cmds = Vec::new();
    tree.run(TaskState::Success, &mut cmds);
    tree.run(TaskState::Success, &mut cmds);
    assert_eq!(tree.state(), NodeState::Success);
    tree.reset();
    assert_eq!(tree.state(), NodeState::NotStarted);
    cmds.clear();
    assert_eq!(tree.run(TaskState::Success, &mut cmds), NodeState::Executing);
    assert_eq!(cmds, vec![TaskCommand::Insert(0)]);
}

#[test]
fn behavior_tick_waits_then_finishes() {
    let mut behavior = Behavior::new("Sleep", task(7));
    let mut cmds = Vec::new();
    assert_eq!(behavior_tick(&mut behavior, TaskState::Executing, &mut cmds), (TaskState::Executing, false));
    assert!(cmds.is_empty());
    assert_eq!(behavior_tick(&mut behavior, TaskState::Success, &mut cmds), (TaskState::Executing, false));
    assert_eq!(behavior_tick(&mut behavior, TaskState::Failed, &mut cmds), (TaskState::Failed, true));
    assert_eq!(cmds, vec![TaskCommand::Insert(7), TaskCommand::Remove(7)]);
    assert_eq!(behavior.label, "Sleep");
    assert_eq!(task_state_of(NodeState::NotStarted), TaskState::Success);
}

#[test]
fn brain_moves_through_its_actions() {
    let mut behavior = BrainBehavior { idx: 0 };
    let mut state = ActState::Success;
    assert_eq!(brain_pick_act(&mut behavior, &mut state, 2), Some(ActSwitch { remove: None, insert: 0 }));
    assert_eq!(state, ActState::Executing);
    assert_eq!(brain_pick_act(&mut behavior, &mut state, 2), None);
    state = ActState::Success;
    assert_eq!(brain_pick_act(&mut behavior, &mut state, 2), Some(ActSwitch { remove: Some(0), insert: 1 }));
    state = ActState::Failed;
    assert_eq!(brain_pick_act(&mut behavior, &mut state, 2), None);
    assert_eq!(behavior.idx, 2);
}

#[test]
fn item_tags_and_animation_clips() {
    assert!(test_item_tags(&[ItemTag::Stone, ItemTag::Log], &[ItemTag::Log]));
    assert!(!test_item_tags(&[ItemTag::Stone], &[ItemTag::Stone, ItemTag::Axe]));
    assert!(test_item_tags(&[], &[]));
    assert!(is_one_shot(AnimClip::PickUp));
    assert!(!is_one_shot(AnimClip::Run));
}

#[test]
fn first_job_system_access_points() {
    assert_eq!(
        job_access_points([1, 1, 1], FirstJobType::Mine),
        vec![
            [2, 1, 1], [1, 1, 2], [2, 2, 1], [1, 2, 2], [2, 1, 2], [0, 1, 1], [0, 2, 1], [0, 1, 2],
            [0, 0, 1], [0, 1, 0], [2, 0, 1], [1, 0, 2], [1, 0, 0], [1, 1, 0], [1, 2, 0], [2, 1, 0]
        ]
    );
    assert_eq!(job_access_points([0, 0, 0], FirstJobType::Mine), vec![[1, 0, 0], [0, 0, 1], [1, 1, 0], [0, 1, 1], [1, 0, 1]]);
}

#[test]
fn job_access_points_by_kind() {
    assert_eq!(
        access_points([1, 1, 1], JobType::Chop),
        vec![[2, 1, 1], [1, 1, 2], [2, 1, 2], [0, 1, 1], [0, 1, 2], [0, 1, 0], [2, 1, 0], [1, 1, 0]]
    );
    assert_eq!(access_points([0, 0, 0], JobType::Chop), vec![[1, 0, 0], [0, 0, 1], [1, 0, 1]]);
    let many = job_access_points_many(&[[0, 0, 0], [1, 0, 0]], JobType::Build);
    assert!(!many.contains(&[0, 0, 0]));
    assert!(!many.contains(&[1, 0, 0]));
    assert!(many.contains(&[2, 0, 0]));
}

fn job(available: bool, reachable: bool, target: [u32; 3]) -> JobCandidate {
    JobCandidate { available, reachable, target }
}

#[test]
fn nearest_job_choice() {
    let pos = [10, 0, 10];
    assert_eq!(manhattan_distance([1, 2, 3], [4, 0, 3]), 5);
    let jobs = vec![job(true, true, [20, 0, 10]), job(false, true, [10, 0, 11]), job(true, true, [13, 0, 10]), job(true, true, [10, 0, 13])];
    assert_eq!(pick_nearest_job(&jobs, pos), Some(2));
    let jobs = vec![job(true, true, [13, 0, 10]), job(true, true, [11, 0, 10]), job(true, true, [10, 0, 10])];
    assert_eq!(pick_nearest_job(&jobs, pos), Some(1));
    let jobs = vec![job(true, false, [10, 0, 10]), job(true, true, [200000, 0, 10])];
    assert_eq!(pick_nearest_job(&jobs, pos), None);
    assert_eq!(pick_nearest_job(&vec![], pos), None);
}

#[test]
fn scoring_by_items() {
    let items = vec![vec![ItemTag::Log], vec![ItemTag::Pickaxe, ItemTag::Stone]];
    assert!(any_item_has_tags(&items, &vec![ItemTag::Pickaxe]));
    assert!(!any_item_has_tags(&items, &vec![ItemTag::Axe]));
    assert_eq!(item_score(true, false), ScoreLevel::High);
    assert_eq!(item_score(false, true), ScoreLevel::Low);
    assert_eq!(item_score(false, false), ScoreLevel::Zero);
}

#[test]
fn animator_starts_new_clips_once() {
    let mut a = Animator { clip: AnimClip::PickUp, armature: 9, prev_clip: AnimClip::NoClip, state: AnimState::Playing };
    assert_eq!(animator_update(&mut a, false), Some((AnimClip::PickUp, true)));
    assert_eq!(a.prev_clip, AnimClip::PickUp);
    assert_eq!(animator_update(&mut a, true), None);
    assert_eq!(a.state, AnimState::Completed);
    a.clip = AnimClip::Run;
    assert_eq!(animator_update(&mut a, false), Some((AnimClip::Run, false)));
    assert_eq!(a.state, AnimState::Playing);
}

#[test]
fn chopping_at_the_top_of_the_world() {
    let pts = access_points([1, u32::MAX, 1], JobType::Chop);
    assert_eq!(pts.len(), 8);
    assert!(pts.iter().all(|p| p[1] == u32::MAX));
}

#[test]
fn reset_after_runs_behaves_as_new() {
    let build = || {
        BehaviorNode::Try(
            Box::new(BehaviorNode::Sequence(vec![task(0), BehaviorNode::Not(Box::new(task(1)))])),
            Box::new(BehaviorNode::Select(vec![task(2), task(3)])),
        )
    };
    let reports = [TaskState::Success, TaskState::Success, TaskState::Success, TaskState::Failed, TaskState::Success];
    let mut fresh = BehaviorNodeState::new(build());
    let mut used = BehaviorNodeState::new(build());
    let mut ignored = Vec::new();
    for r in reports {
        used.run(r, &mut ignored);
    }
    used.reset();
    for r in reports {
        let mut c1 = Vec::new();
        let mut c2 = Vec::new();
        assert_eq!(fresh.run(r, &mut c1), used.run(r, &mut c2));
        assert_eq!(c1, c2);
    }
    let done = fresh.state();
    let mut c = Vec::new();
    assert_eq!(fresh.run(TaskState::Failed, &mut c), done);
    assert!(c.is_empty());
}

#[test]
fn scoring_a_job_by_distance_and_items() {
    let jobs = vec![
        JobCandidate { available: true, reachable: true, target: [9, 0, 0] },
        JobCandidate { available: false, reachable: true, target: [1, 0, 0] },
        JobCandidate { available: true, reachable: true, target: [4, 0, 0] },
    ];
    let stone = vec![ItemTag::Stone];
    let loose = vec![FreeItem { tags: vec![ItemTag::Stone], reserved: false, reachable: true }];
    let claimed = vec![FreeItem { tags: vec![ItemTag::Stone], reserved: true, reachable: true }];
    assert_eq!(score_job(&jobs, [0, 0, 0], &vec![vec![ItemTag::Stone]], &vec![], &stone), Some((2, ScoreLevel::High)));
    assert_eq!(score_job(&jobs, [0, 0, 0], &vec![], &loose, &stone), Some((2, ScoreLevel::Low)));
    assert_eq!(score_job(&jobs, [0, 0, 0], &vec![], &claimed, &stone), Some((2, ScoreLevel::Zero)));
    assert_eq!(score_job(&vec![], [0, 0, 0], &vec![], &loose, &stone), None);
}

#[test]
fn if_else_of_subtrees_runs_like_a_try_of_a_sequence() {
    let c = || BehaviorNode::Sequence(vec![task(0), task(1)]);
    let i = || BehaviorNode::Select(vec![task(2), task(3)]);
    let e = || BehaviorNode::Not(Box::new(task(4)));
    for reports in [
        vec![TaskState::Success, TaskState::Success, TaskState::Executing, TaskState::Failed, TaskState::Success],
        vec![TaskState::Success, TaskState::Failed, TaskState::Executing, TaskState::Success, TaskState::Success],
    ] {
        let mut if_else = BehaviorNodeState::new(BehaviorNode::IfElse(Box::new(c()), Box::new(i()), Box::new(e())));
        let mut try_seq =
            BehaviorNodeState::new(BehaviorNode::Try(Box::new(BehaviorNode::Sequence(vec![c(), i()])), Box::new(e())));
        for report in reports {
            let mut c1 = Vec::new();
            let mut c2 = Vec::new();
            assert_eq!(if_else.run(report, &mut c1), try_seq.run(report, &mut c2));
            assert_eq!(c1, c2);
        }
        assert_eq!(if_else.state(), try_seq.state());
    }
}
