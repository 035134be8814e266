//! The images of the player character and the state of their loading.

use vstd::prelude::*;

verus! {

/// How far the loading of the images has come.
#[derive(Debug, Clone, Copy, PartialEq, Eq, Structural, Hash)]
pub enum AssetState {
    Initial,
    Loading,
    Loaded,
}

/// What the player character is shown doing.
#[derive(Debug, Clone, Copy, PartialEq, Eq, Structural)]
pub enum Animation {
    Idle,
    Walk,
    Dance,
    Jump,
}

/// The image files of the idle animation.
pub open spec fn idle_frames() -> Seq<&'static str> {
    seq![
        "characters/basic/basic_idle_01.png",
        "characters/basic/basic_idle_02.png",
        "characters/basic/basic_idle_03.png",
        "characters/basic/basic_idle_04.png",
    ]
}

/// The image files of the walk animation.
pub open spec fn run_frames() -> Seq<&'static str> {
    seq![
        "characters/basic/basic_run_01.png",
        "characters/basic/basic_run_02.png",
        "characters/basic/basic_run_03.png",
        "characters/basic/basic_run_04.png",
        "characters/basic/basic_run_05.png",
        "characters/basic/basic_run_06.png",
        "characters/basic/basic_run_07.png",
        "characters/basic/basic_run_08.png",
    ]
}

/// The image files of the jump animation.
pub open spec fn jump_frames() -> Seq<&'static str> {
    seq![
        "characters/basic/basic_jump_01.png",
        "characters/basic/basic_jump_02.png",
        "characters/basic/basic_jump_03.png",
        "characters/basic/basic_jump_04.png",
        "characters/basic/basic_jump_05.png",
        "characters/basic/basic_jump_06.png",
        "characters/basic/basic_jump_07.png",
        "characters/basic/basic_jump_08.png",
        "characters/basic/basic_jump_09.png",
        "characters/basic/basic_jump_10.png",
    ]
}

/// The image files of an animation, in the order in which they are shown.
/// The dance has no images of its own and is shown as a jump.
pub open spec fn frame_files(animation: Animation) -> Seq<&'static str> {
    match animation {
        Animation::Idle => idle_frames(),
        Animation::Walk => run_frames(),
        Animation::Dance | Animation::Jump => jump_frames(),
    }
}

impl Default for Animation {
    fn default() -> (animation: Animation)
        ensures
            animation == Animation::Idle,
    {
        Animation::Idle
    }
}

impl Animation {
    /// The image files of the animation, in the order in which they are shown.
    pub fn frames(&self) -> (files: Vec<&'static str>)
        ensures
            files@ == frame_files(*self),
    {
        match *self {
            Animation::Idle => vec![
                "characters/basic/basic_idle_01.png",
                "characters/basic/basic_idle_02.png",
                "characters/basic/basic_idle_03.png",
                "characters/basic/basic_idle_04.png",
            ],
            Animation::Walk => vec![
                "characters/basic/basic_run_01.png",
                "characters/basic/basic_run_02.png",
                "characters/basic/basic_run_03.png",
                "characters/basic/basic_run_04.png",
                "characters/basic/basic_run_05.png",
                "characters/basic/basic_run_06.png",
                "characters/basic/basic_run_07.png",
                "characters/basic/basic_run_08.png",
            ],
            Animation::Dance | Animation::Jump => vec![
                "characters/basic/basic_jump_01.png",
                "characters/basic/basic_jump_02.png",
                "characters/basic/basic_jump_03.png",
                "characters/basic/basic_jump_04.png",
                "characters/basic/basic_jump_05.png",
                "characters/basic/basic_jump_06.png",
                "characters/basic/basic_jump_07.png",
                "characters/basic/basic_jump_08.png",
                "characters/basic/basic_jump_09.png",
                "characters/basic/basic_jump_10.png",
            ],
        }
    }

    /// Whether the animation starts over when it has run through: all but
    /// the jump do.
    pub fn repeats(&self) -> (again: bool)
        ensures
            again == !(*self is Jump),
    {
        match *self {
            Animation::Walk | Animation::Idle | Animation::Dance => true,
            Animation::Jump => false,
        }
    }
}

} // verus!
