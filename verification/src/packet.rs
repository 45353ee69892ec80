use vstd::prelude::*;

verus! {

/// Classification of datagrams the server can receive.
#[derive(Clone, Copy, PartialEq, Eq, Structural, Debug)]
pub enum InputPacketType {
    GameState,
    PlayerJoin,
    PlayerLeave,
    PlayerInput,
}

/// Classification of datagrams the server can emit.
#[derive(Clone, Copy, PartialEq, Eq, Structural, Debug)]
pub enum OutputPacketType {
    Success,
    Failed,
    Data,
}

} // verus!
