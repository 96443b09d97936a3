//! The constants of a session: the arena and the tunable values of the
//! rules.

use vstd::prelude::*;
use crate::components::SpriteSize;

verus! {

/// The size of the arena, in world units. The origin is its centre.
#[derive(Clone, Copy, Debug, PartialEq, Eq)]
pub struct WinSize {
    pub w: u32,
    pub h: u32,
}

/// The length of one movement step as a fraction of a second.
#[derive(Clone, Copy, Debug, PartialEq, Eq)]
pub struct TimeStep {
    pub num: u32,
    pub den: u32,
}

/// Everything that is fixed for a session.
#[derive(Clone, Copy, Debug, PartialEq, Eq)]
pub struct Config {
    pub win_size: WinSize,
    /// The most enemies that may be alive at once.
    pub enemy_max: u32,
    /// World units per second at a velocity of one.
    pub base_speed: u32,
    pub time_step: TimeStep,
    /// How far beyond the arena an entity may go before it is removed.
    pub margin: u32,
    /// The scale of players, enemies and lasers, in thousandths.
    pub sprite_scale: u32,
    pub player_size: SpriteSize,
    pub enemy_size: SpriteSize,
    pub laser_size: SpriteSize,
    /// The number of frames of an explosion.
    pub explosion_len: u64,
    /// How long a frame of an explosion is shown, in microseconds.
    pub frame_duration: u64,
    /// The time from one spawning of an enemy to the next, in microseconds.
    pub spawn_interval: u64,
    /// How far from the edge of the arena enemies keep when they spawn.
    pub spawn_inset: u32,
    /// How far to the right and to the left of the player its lasers start.
    pub laser_offset_x: u32,
    /// How far above the player its lasers start; negative is below.
    pub laser_offset_y: i32,
    /// How far above the lower edge the foot of the player stands.
    pub player_lift: u32,
    /// The layer of players, enemies and lasers.
    pub depth: i32,
}

/// What is wrong with a configuration.
#[derive(Clone, Copy, Debug, PartialEq, Eq)]
pub enum ConfigError {
    /// The time step has a denominator of zero.
    ZeroTimeStep,
    /// A frame of an explosion lasts no time.
    ZeroFrameDuration,
    /// Enemies would spawn without pause.
    ZeroSpawnInterval,
    /// No place is left inside the inset for an enemy to spawn.
    ArenaTooSmall,
}

impl Config {
    /// Half the width of the region in which enemies spawn.
    pub open spec fn span_x(self) -> int {
        self.win_size.w / 2 - self.spawn_inset
    }

    /// Half the height of the region in which enemies spawn.
    pub open spec fn span_y(self) -> int {
        self.win_size.h / 2 - self.spawn_inset
    }

    /// Whether a place lies in the region in which enemies spawn.
    pub open spec fn interior(self, x: i64, y: i64) -> bool {
        -self.span_x() <= x < self.span_x() && -self.span_y() <= y < self.span_y()
    }

    /// The rules can run on this configuration.
    pub open spec fn valid(self) -> bool {
        &&& self.time_step.den > 0
        &&& self.frame_duration > 0
        &&& self.spawn_interval > 0
        &&& self.span_x() > 0
        &&& self.span_y() > 0
    }

    /// The standard values, in an arena of the given size: a world unit is a
    /// millionth of a pixel, so that a step at full speed, 500 pixels in 60
    /// steps, is cut by less than a millionth of a pixel.
    pub fn standard(win_size: WinSize) -> (config: Config)
        ensures
            config == (Config {
                win_size,
                enemy_max: 2,
                base_speed: 500_000_000,
                time_step: TimeStep { num: 1, den: 60 },
                margin: 200_000_000,
                sprite_scale: 500,
                player_size: SpriteSize { half_width: 64_000_000, half_height: 64_000_000 },
                enemy_size: SpriteSize { half_width: 48_000_000, half_height: 48_000_000 },
                laser_size: SpriteSize { half_width: 4_500_000, half_height: 27_000_000 },
                explosion_len: 16,
                frame_duration: 50_000,
                spawn_interval: 1_000_000,
                spawn_inset: 100_000_000,
                laser_offset_x: 27_000_000,
                laser_offset_y: (-2_000_000i32),
                player_lift: 5_000_000,
                depth: 10,
            }),
    {
        Config {
            win_size,
            enemy_max: 2,
            base_speed: 500_000_000,
            time_step: TimeStep { num: 1, den: 60 },
            margin: 200_000_000,
            sprite_scale: 500,
            player_size: SpriteSize { half_width: 64_000_000, half_height: 64_000_000 },
            enemy_size: SpriteSize { half_width: 48_000_000, half_height: 48_000_000 },
            laser_size: SpriteSize { half_width: 4_500_000, half_height: 27_000_000 },
            explosion_len: 16,
            frame_duration: 50_000,
            spawn_interval: 1_000_000,
            spawn_inset: 100_000_000,
            laser_offset_x: 27_000_000,
            laser_offset_y: -2_000_000,
            player_lift: 5_000_000,
            depth: 10,
        }
    }

    /// What is wrong with the configuration, if anything is. Of several
    /// faults the first in the order of `ConfigError` is named.
    pub open spec fn fault(self) -> Option<ConfigError> {
        if self.time_step.den == 0 {
            Some(ConfigError::ZeroTimeStep)
        } else if self.frame_duration == 0 {
            Some(ConfigError::ZeroFrameDuration)
        } else if self.spawn_interval == 0 {
            Some(ConfigError::ZeroSpawnInterval)
        } else if self.span_x() <= 0 || self.span_y() <= 0 {
            Some(ConfigError::ArenaTooSmall)
        } else {
            None
        }
    }

    /// Says what is wrong with the configuration, if anything is.
    pub fn validate(&self) -> (checked: Result<(), ConfigError>)
        ensures
            checked is Ok <==> self.valid(),
            checked == match self.fault() {
                Some(e) => Err::<(), ConfigError>(e),
                None => Ok::<(), ConfigError>(()),
            },
    {
        if self.time_step.den == 0 {
            Err(ConfigError::ZeroTimeStep)
        } else if self.frame_duration == 0 {
            Err(ConfigError::ZeroFrameDuration)
        } else if self.spawn_interval == 0 {
            Err(ConfigError::ZeroSpawnInterval)
        } else if self.win_size.w / 2 <= self.spawn_inset || self.win_size.h / 2
            <= self.spawn_inset {
            Err(ConfigError::ArenaTooSmall)
        } else {
            Ok(())
        }
    }
}

} // verus!
