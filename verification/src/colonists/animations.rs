use vstd::prelude::*;

verus! {

/// The animation clips of a colonist.
#[derive(Debug, Clone, Copy, PartialEq, Eq, Structural)]
pub enum AnimClip {
    NoClip,
    Run,
    Idle,
    PickUp,
    SwingPick,
    SwingHammer,
    SwingAxe,
}

/// Whether the current clip is still playing.
#[derive(Debug, Clone, Copy, PartialEq, Eq, Structural)]
pub enum AnimState {
    Playing,
    Completed,
}

/// Whether a clip plays once rather than in a loop: only picking up is one-shot.
pub fn is_one_shot(clip: AnimClip) -> (r: bool)
    ensures
        r == (clip == AnimClip::PickUp),
{
    match clip {
        AnimClip::NoClip => false,
        AnimClip::Run => false,
        AnimClip::Idle => false,
        AnimClip::SwingPick => false,
        AnimClip::PickUp => true,
        AnimClip::SwingHammer => false,
        AnimClip::SwingAxe => false,
    }
}

/// What plays on a colonist's armature: the clip asked for, the clip last started, and
/// whether that one has finished. The armature is held by its entity handle.
#[derive(Debug, Clone, Copy)]
pub struct Animator {
    pub clip: AnimClip,
    pub armature: u64,
    pub prev_clip: AnimClip,
    pub state: AnimState,
}

/// One tick of an animator whose player reports `finished`: records whether the clip
/// still plays, and when a new clip was asked for, takes it as started and hands it back
/// with whether it plays once.
pub fn animator_update(animator: &mut Animator, finished: bool) -> (r: Option<(AnimClip, bool)>)
    ensures
        final(animator).state == (if finished { AnimState::Completed } else { AnimState::Playing }),
        final(animator).clip == old(animator).clip,
        final(animator).armature == old(animator).armature,
        old(animator).clip != old(animator).prev_clip ==> {
            &&& r == Some((old(animator).clip, old(animator).clip == AnimClip::PickUp))
            &&& final(animator).prev_clip == old(animator).clip
        },
        old(animator).clip == old(animator).prev_clip ==> r is None && final(animator).prev_clip == old(animator).prev_clip,
{
    animator.state = if finished { AnimState::Completed } else { AnimState::Playing };
    if animator.clip != animator.prev_clip {
        let one_shot = is_one_shot(animator.clip);
        animator.prev_clip = animator.clip;
        return Some((animator.clip, one_shot));
    }
    None
}

} // verus!
