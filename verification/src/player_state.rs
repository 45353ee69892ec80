use vstd::prelude::*;

verus! {

/// Health a freshly admitted player starts with; the core never changes it.
pub const INITIAL_HEALTH: u8 = 100;

/// A 3-vector of 32-bit floats carried as IEEE-754 bit patterns, so that
/// kinematic values cross the wire and the authoritative table without loss.
/// The core only stores and forwards these; arithmetic on them is the
/// renderer's business.
#[derive(Clone, Copy, PartialEq, Eq, Structural, Debug)]
pub struct Vec3Bits {
    pub x: u32,
    pub y: u32,
    pub z: u32,
}

impl Vec3Bits {
    /// The all-zero bit pattern, which is also the encoding of `[0.0; 3]`.
    pub open spec fn spec_zero() -> Vec3Bits {
        Vec3Bits { x: 0, y: 0, z: 0 }
    }

    pub fn zero() -> (r: Vec3Bits)
        ensures
            r == Vec3Bits::spec_zero(),
    {
        Vec3Bits { x: 0, y: 0, z: 0 }
    }
}

/// One player's authoritative state: identity, kinematics and health.
#[derive(Clone, Copy, PartialEq, Eq, Structural, Debug)]
pub struct PlayerState {
    pub player_id: u128,
    pub position: Vec3Bits,
    pub velocity: Vec3Bits,
    pub pitch: u32,
    pub yaw: u32,
    pub health: u8,
}

impl PlayerState {
    /// The state a player is admitted with: at the origin, at rest, facing
    /// forward, with full health.
    pub open spec fn spec_with_identity(player_id: u128) -> PlayerState {
        PlayerState {
            player_id,
            position: Vec3Bits::spec_zero(),
            velocity: Vec3Bits::spec_zero(),
            pitch: 0,
            yaw: 0,
            health: INITIAL_HEALTH,
        }
    }

    pub fn with_identity(player_id: u128) -> (r: PlayerState)
        ensures
            r == PlayerState::spec_with_identity(player_id),
    {
        PlayerState {
            player_id,
            position: Vec3Bits::zero(),
            velocity: Vec3Bits::zero(),
            pitch: 0,
            yaw: 0,
            health: INITIAL_HEALTH,
        }
    }

    /// The state after an accepted movement report: kinematics overwritten,
    /// identity and health untouched.
    pub open spec fn spec_update(
        self,
        position: Vec3Bits,
        velocity: Vec3Bits,
        pitch: u32,
        yaw: u32,
    ) -> PlayerState {
        PlayerState { position, velocity, pitch, yaw, ..self }
    }

    /// Overwrite the kinematic fields from a movement report.
    pub fn update(&mut self, position: Vec3Bits, velocity: Vec3Bits, pitch: u32, yaw: u32)
        ensures
            *final(self) == old(self).spec_update(position, velocity, pitch, yaw),
    {
        self.position = position;
        self.velocity = velocity;
        self.pitch = pitch;
        self.yaw = yaw;
    }
}

} // verus!
