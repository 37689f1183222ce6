//! Frame-by-frame sprite animation: which frame an animated sprite shows,
//! and what happens when a frame has been shown long enough.
use vstd::prelude::*;

verus! {

/// What happens when a frame has been shown long enough.
#[derive(Debug, PartialEq, Eq)]
pub enum AnimationOption {
    /// Nothing happens.
    Nothing,
    /// The animation goes on to the frame that follows.
    NextFrame,
    /// The animation goes on to the frame of the given index.
    GoToFrame(usize),
    /// Another animation takes over, from its first frame.
    SwitchToAnimation(String),
    /// A sound is played.
    PlaySound(String),
}

/// One frame of an animation: the sprite that it shows, how long it shows
/// it, and what happens then.
#[derive(Debug, PartialEq, Eq)]
pub struct AnimationFrame {
    pub sprite_index: usize,
    pub delay_ms: u128,
    pub action: Vec<AnimationOption>,
}

impl AnimationFrame {
    /// A frame that shows sprite `sprite_index` for `delay_ms` milliseconds
    /// and then runs `action`.
    pub fn new(sprite_index: usize, delay_ms: u128, action: Vec<AnimationOption>) -> (frame: Self)
        ensures
            frame.sprite_index == sprite_index,
            frame.delay_ms == delay_ms,
            frame.action == action,
    {
        Self { sprite_index, delay_ms, action }
    }
}

/// An animation: its frames in order.
#[derive(Debug, PartialEq, Eq)]
pub struct PerFrameAnimation {
    pub frames: Vec<AnimationFrame>,
}

impl PerFrameAnimation {
    /// The animation made of `frames`.
    pub fn new(frames: Vec<AnimationFrame>) -> (animation: Self)
        ensures
            animation.frames == frames,
    {
        Self { frames }
    }
}

/// Where an animated sprite stands: in which animation, at which frame, and
/// for how many milliseconds it has shown that frame.
#[derive(Debug, PartialEq, Eq)]
pub struct AnimationCycle {
    pub animation_tag: String,
    pub current_frame: usize,
    pub timer: u128,
}

/// What a step of an animation asks of its caller.
#[derive(Debug, PartialEq, Eq)]
pub enum CycleOutcome {
    /// There is no animation of that name: nothing changed but the timer.
    Missing,
    /// The frame has not been shown long enough: nothing changed but the
    /// timer.
    Waiting,
    /// The frame has run its actions: the sprite shows `sprite_index`, if
    /// it is given, and the sounds are played.
    Played { sprite_index: Option<usize>, sounds: Vec<String> },
    /// A frame index left the animation: nothing changed but the timer.
    OutOfFrames,
}

/// `a + b`, saturating at the limit of `u128`.
pub open spec fn saturating_sum(a: int, b: int) -> int {
    if a + b > u128::MAX {
        u128::MAX as int
    } else {
        a + b
    }
}

/// The sounds named by `sounds`, as sequences of characters.
pub open spec fn names_of(sounds: Seq<String>) -> Seq<Seq<char>> {
    Seq::new(sounds.len(), |i: int| sounds[i]@)
}

/// The state of an animated sprite while the actions of a frame run.
pub struct CycleState {
    pub tag: Seq<char>,
    pub frame: int,
    pub sprite: Option<usize>,
    pub sounds: Seq<Seq<char>>,
}

/// The state after one action.
pub open spec fn apply_action(state: CycleState, action: AnimationOption) -> CycleState {
    match action {
        AnimationOption::Nothing => state,
        AnimationOption::NextFrame => CycleState { frame: state.frame + 1, ..state },
        AnimationOption::GoToFrame(frame) => CycleState { frame: frame as int, ..state },
        AnimationOption::SwitchToAnimation(new) => CycleState { tag: new@, frame: 0, ..state },
        AnimationOption::PlaySound(sound) => CycleState {
            sounds: state.sounds.push(sound@),
            ..state
        },
    }
}

/// The state after the actions from index `from` on have run in order: after
/// each action the sprite shows what the frame then current shows. There is
/// no such state if a frame index leaves `frames` on the way.
pub open spec fn run_actions(
    frames: Seq<AnimationFrame>,
    actions: Seq<AnimationOption>,
    from: int,
    state: CycleState,
) -> Option<CycleState>
    decreases actions.len() - from,
{
    if from < 0 || from >= actions.len() {
        Some(state)
    } else {
        let next = apply_action(state, actions[from]);
        if 0 <= next.frame < frames.len() {
            run_actions(
                frames,
                actions,
                from + 1,
                CycleState { sprite: Some(frames[next.frame].sprite_index), ..next },
            )
        } else {
            None
        }
    }
}

impl AnimationCycle {
    /// The start of the animation called `tag`.
    pub fn new(tag: &str) -> (cycle: Self)
        ensures
            cycle.animation_tag@ == tag@,
            cycle.current_frame == 0,
            cycle.timer == 0,
    {
        broadcast use vstd::string::to_string_from_display_ensures_for_str;

        Self { animation_tag: tag.to_string(), current_frame: 0, timer: 0 }
    }

    /// Changes to the animation called `new` and starts it; if that is the
    /// animation already running, it goes on undisturbed.
    pub fn switch(&mut self, new: &str)
        ensures
            new@ == old(self).animation_tag@ ==> *final(self) == *old(self),
            new@ != old(self).animation_tag@ ==> final(self).animation_tag@ == new@,
            new@ != old(self).animation_tag@ ==> final(self).current_frame == 0,
            new@ != old(self).animation_tag@ ==> final(self).timer == 0,
    {
        broadcast use vstd::string::to_string_from_display_ensures_for_str;

        let new = new.to_string();
        if new != self.animation_tag {
            self.animation_tag = new;
            self.current_frame = 0;
            self.timer = 0;
        }
    }

    /// The state in which the actions of a frame start.
    pub open spec fn at_rest(self) -> CycleState {
        CycleState {
            tag: self.animation_tag@,
            frame: self.current_frame as int,
            sprite: None,
            sounds: Seq::empty(),
        }
    }
}

/// Advances an animated sprite by `ms_since_last_call` milliseconds.
///
/// The timer of the sprite moves on, saturating. If `cycle`, the animation
/// that the sprite is in, is there and the current frame has then been
/// shown for longer than its delay, the timer starts again and the actions
/// of the frame run in order.
#[verifier::loop_isolation(false)]
pub fn cycle_animation(
    animation: &mut AnimationCycle,
    cycle: Option<&PerFrameAnimation>,
    ms_since_last_call: u128,
) -> (outcome: CycleOutcome)
    ensures
        ({
            let timer = saturating_sum(old(animation).timer as int, ms_since_last_call as int);
            let waited = AnimationCycle { timer: timer as u128, ..*old(animation) };
            match cycle {
                None => outcome is Missing && *final(animation) == waited,
                Some(cycle) => {
                    let frames = cycle.frames@;
                    let current = old(animation).current_frame as int;
                    if current >= frames.len() {
                        outcome is OutOfFrames && *final(animation) == waited
                    } else if timer <= frames[current].delay_ms {
                        outcome is Waiting && *final(animation) == waited
                    } else {
                        match run_actions(frames, frames[current].action@, 0, old(animation).at_rest()) {
                            None => outcome is OutOfFrames && *final(animation) == waited,
                            Some(end) => {
                                &&& outcome matches CycleOutcome::Played { sprite_index, sounds }
                                &&& sprite_index == end.sprite
                                &&& names_of(sounds@) == end.sounds
                                &&& final(animation).animation_tag@ == end.tag
                                &&& final(animation).current_frame == end.frame
                                &&& final(animation).timer == 0
                            },
                        }
                    }
                },
            }
        }),
{
    animation.timer = match animation.timer.checked_add(ms_since_last_call) {
        Some(sum) => sum,
        None => u128::MAX,
    };
    let cycle = match cycle {
        Some(cycle) => cycle,
        None => {
            return CycleOutcome::Missing;
        },
    };
    if animation.current_frame >= cycle.frames.len() {
        return CycleOutcome::OutOfFrames;
    }
    let current_frame = &cycle.frames[animation.current_frame];
    if animation.timer <= current_frame.delay_ms {
        return CycleOutcome::Waiting;
    }
    let mut animation_tag = animation.animation_tag.clone();
    let mut frame = animation.current_frame;
    let mut sprite_index: Option<usize> = None;
    let mut sounds: Vec<String> = Vec::new();
    let ghost start = old(animation).at_rest();
    let ghost frames = cycle.frames@;
    let ghost actions = current_frame.action@;
    assert(names_of(sounds@) =~= start.sounds);
    let mut i: usize = 0;
    while i < current_frame.action.len()
        invariant
            0 <= i <= actions.len(),
            frames == cycle.frames@,
            actions == current_frame.action@,
            frame < frames.len(),
            run_actions(frames, actions, 0, start) == run_actions(
                frames,
                actions,
                i as int,
                CycleState {
                    tag: animation_tag@,
                    frame: frame as int,
                    sprite: sprite_index,
                    sounds: names_of(sounds@),
                },
            ),
        decreases actions.len() - i,
    {
        let ghost before = names_of(sounds@);
        match &current_frame.action[i] {
            AnimationOption::Nothing => {},
            AnimationOption::NextFrame => {
                if frame >= cycle.frames.len() - 1 {
                    return CycleOutcome::OutOfFrames;
                }
                frame += 1;
            },
            AnimationOption::GoToFrame(target) => {
                if *target >= cycle.frames.len() {
                    return CycleOutcome::OutOfFrames;
                }
                frame = *target;
            },
            AnimationOption::SwitchToAnimation(new) => {
                animation_tag = new.clone();
                frame = 0;
            },
            AnimationOption::PlaySound(sound) => {
                sounds.push(sound.clone());
                assert(names_of(sounds@) =~= before.push(sound@));
            },
        }
        sprite_index = Some(cycle.frames[frame].sprite_index);
        i += 1;
    }
    animation.animation_tag = animation_tag;
    animation.current_frame = frame;
    animation.timer = 0;
    CycleOutcome::Played { sprite_index, sounds }
}

} // verus!
