//! Sound-command types at the interface boundary; mixing and output are
//! outside collaborators.

use vstd::prelude::*;

verus! {

/// Whether a scene plays to the speakers or renders off-air.
#[derive(Clone, Copy, Debug, PartialEq, Eq, Structural)]
pub enum SceneAirMode {
    OnAir,
    OffAir { id: u64, sample_rate: u32 },
}

/// Options a sound scene is created with.
#[derive(Clone, Copy, Debug, PartialEq, Eq, Structural)]
pub struct SoundSceneCreateProps {
    pub air_mode: SceneAirMode,
}

/// Commands on whole sound scenes.
#[derive(Clone, Copy, Debug, PartialEq, Eq, Structural)]
pub enum SoundCommandSoundScene {
    Create { id: u64, props: SoundSceneCreateProps },
    Destroy { id: u64 },
    StayActive { id: u64 },
    StopDetatchedSounds { id: u64 },
}

/// Commands on playing sounds.
#[derive(Clone, Copy, Debug, PartialEq, Eq, Structural)]
pub enum SoundCommandPlay {
    Play { play_id: u64, sound_id: u64, scene_id: u64 },
    Pause { play_id: u64, sound_id: u64, scene_id: u64 },
    Resume { play_id: u64, sound_id: u64, scene_id: u64 },
    Stop { play_id: u64, sound_id: u64, scene_id: u64 },
    Detatch { play_id: u64, sound_id: u64, scene_id: u64 },
}

} // verus!
