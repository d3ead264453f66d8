//! The decisions of the event loop: what a read, a write or a signal leads
//! to. Performing them (polling, registering interest) is left to the caller.
use vstd::prelude::*;

use crate::client::{ClientReadStat, ClientWriteStat};

verus! {

/// What the event loop does after one read or write on the connection.
#[derive(Debug, PartialEq)]
pub enum LoopAction {
    /// Keep reading or writing.
    Continue,
    /// Stop for now; wait for the next readiness event.
    Wait,
    /// Ask to be told when the connection is writable, then wait.
    ArmWrite,
    /// Stop asking for writability (nothing is queued), then wait.
    DisarmWrite,
    /// Leave the loop cleanly.
    Shutdown,
    /// Leave the loop with a protocol error.
    Fail(String),
}

/// A delivered signal.
#[derive(PartialEq, Eq, Structural, Clone, Copy, Debug)]
pub enum SignalKind {
    Interrupt,
    Terminate,
    Quit,
    User1,
    User2,
}

/// What a signal asks for.
#[derive(PartialEq, Eq, Structural, Clone, Copy, Debug)]
pub enum SignalAction {
    Shutdown,
    ReloadConfig,
}

/// The step after a receive; a full read buffer is not a valid outcome here
/// (the caller treats it as a fault).
pub fn after_read(stat: ClientReadStat) -> (r: LoopAction)
    requires
        !(stat is ReadBufferFull),
    ensures
        stat is HasWritableData ==> r is ArmWrite,
        stat is Blocked ==> r is Wait,
        stat is Okay ==> r is Continue,
        stat is Eof ==> r is Shutdown,
        stat is Error ==> r is Fail && r->Fail_0@ == stat->Error_0@,
{
    match stat {
        ClientReadStat::HasWritableData => LoopAction::ArmWrite,
        ClientReadStat::Blocked => LoopAction::Wait,
        ClientReadStat::Okay => LoopAction::Continue,
        ClientReadStat::Eof => LoopAction::Shutdown,
        ClientReadStat::Error(e) => LoopAction::Fail(e),
        ClientReadStat::ReadBufferFull => LoopAction::Wait,
    }
}

/// The step after a write: an empty queue drops write interest.
pub fn after_write(stat: ClientWriteStat) -> (r: LoopAction)
    ensures
        stat == ClientWriteStat::Eof ==> r is DisarmWrite,
        stat == ClientWriteStat::Blocked ==> r is Wait,
        stat == ClientWriteStat::Okay ==> r is Continue,
{
    match stat {
        ClientWriteStat::Eof => LoopAction::DisarmWrite,
        ClientWriteStat::Blocked => LoopAction::Wait,
        ClientWriteStat::Okay => LoopAction::Continue,
    }
}

/// Interrupt, terminate and quit shut down; the user signals reload the
/// configuration.
pub fn on_signal(sig: SignalKind) -> (r: SignalAction)
    ensures
        r == (if sig == SignalKind::User1 || sig == SignalKind::User2 {
            SignalAction::ReloadConfig
        } else {
            SignalAction::Shutdown
        }),
{
    match sig {
        SignalKind::User1 | SignalKind::User2 => SignalAction::ReloadConfig,
        _ => SignalAction::Shutdown,
    }
}

} // verus!
