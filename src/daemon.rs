//! Decisions of the resident daemon and of the client that calls it.
//!
//! The daemon binds a well-known socket (`Starting`), then serves one
//! connection at a time (`Listening`) until it is interrupted
//! (`Terminating`), when it removes the socket it bound.

use vstd::prelude::*;
use crate::config::Config;
use crate::entry::{Entry, copy_entries, entries_view};

verus! {

/// The response to `request`: a request with no entries gets the resident
/// entries, one with entries keeps its own; either way the response is
/// marked as coming from the daemon.
pub fn respond(request: Config, resident: &Vec<Entry>) -> (r: Config)
    ensures
        r.daemon,
        request.entries@.len() == 0 ==> entries_view(r.entries@) == entries_view(resident@),
        request.entries@.len() > 0 ==> r.entries == request.entries,
        r.icon_theme == request.icon_theme,
        r.placeholder == request.placeholder,
        r.mode == request.mode,
        r.colors == request.colors,
{
    let Config { daemon: _, icon_theme, placeholder, mode, entries, colors } = request;
    let entries = if entries.len() == 0 {
        copy_entries(resident)
    } else {
        entries
    };
    Config { daemon: true, icon_theme, placeholder, mode, entries, colors }
}

/// Whether the launcher must scan descriptors and icons itself: as the
/// daemon, or when the configuration names no entries.
pub fn needs_scan(config: &Config) -> (r: bool)
    ensures
        r == (config.daemon || config.entries@.len() == 0),
{
    config.daemon || config.entries.len() == 0
}

/// Whether the launcher first tries to hand its request to a running
/// daemon: only when it is not the daemon itself.
pub fn tries_daemon(config: &Config) -> (r: bool)
    ensures
        r == !config.daemon,
{
    !config.daemon
}

/// Phase of the daemon process.
#[derive(Clone, Copy, Debug, PartialEq, Eq, Structural)]
pub enum DaemonPhase {
    Starting,
    Listening,
    Terminating,
}

/// What happens to the daemon.
#[derive(Clone, Copy, Debug, PartialEq, Eq, Structural)]
pub enum DaemonEvent {
    /// The socket was bound.
    Bound,
    /// The socket path is already bound by another process.
    BindRefused,
    /// One connection was served, or dropped on a transport or payload
    /// error.
    ConnectionDone,
    /// The process received an interrupt.
    Interrupted,
}

/// What the daemon does next.
#[derive(Clone, Copy, Debug, PartialEq, Eq, Structural)]
pub enum DaemonAction {
    /// Accept the next connection.
    AcceptNext,
    /// Nothing to do.
    Wait,
    /// Exit with an error, leaving the socket path alone.
    ExitWithError,
    /// Exit without an error, leaving the socket path alone.
    Exit,
    /// Remove the bound socket path, then exit.
    RemoveSocketAndExit,
}

/// The daemon's transitions.
pub open spec fn next(phase: DaemonPhase, event: DaemonEvent) -> (DaemonPhase, DaemonAction) {
    match (phase, event) {
        (DaemonPhase::Starting, DaemonEvent::Bound) => (DaemonPhase::Listening, DaemonAction::AcceptNext),
        (DaemonPhase::Starting, DaemonEvent::BindRefused) => (DaemonPhase::Terminating, DaemonAction::ExitWithError),
        (DaemonPhase::Starting, DaemonEvent::Interrupted) => (DaemonPhase::Terminating, DaemonAction::Exit),
        (DaemonPhase::Listening, DaemonEvent::ConnectionDone) => (DaemonPhase::Listening, DaemonAction::AcceptNext),
        (DaemonPhase::Listening, DaemonEvent::Interrupted) => (DaemonPhase::Terminating, DaemonAction::RemoveSocketAndExit),
        (p, _) => (p, DaemonAction::Wait),
    }
}

/// The daemon's next phase and action.
pub fn daemon_step(phase: DaemonPhase, event: DaemonEvent) -> (r: (DaemonPhase, DaemonAction))
    ensures
        r == next(phase, event),
{
    match (phase, event) {
        (DaemonPhase::Starting, DaemonEvent::Bound) => (DaemonPhase::Listening, DaemonAction::AcceptNext),
        (DaemonPhase::Starting, DaemonEvent::BindRefused) => (DaemonPhase::Terminating, DaemonAction::ExitWithError),
        (DaemonPhase::Starting, DaemonEvent::Interrupted) => (DaemonPhase::Terminating, DaemonAction::Exit),
        (DaemonPhase::Listening, DaemonEvent::ConnectionDone) => (DaemonPhase::Listening, DaemonAction::AcceptNext),
        (DaemonPhase::Listening, DaemonEvent::Interrupted) => (DaemonPhase::Terminating, DaemonAction::RemoveSocketAndExit),
        (p, _) => (p, DaemonAction::Wait),
    }
}

/// At most one daemon: a daemon that finds the socket path bound fails at
/// once and never removes that path, so the running daemon keeps its
/// listener; only a daemon that bound the socket itself removes it.
pub proof fn lemma_single_daemon(phase: DaemonPhase, event: DaemonEvent)
    ensures
        next(DaemonPhase::Starting, DaemonEvent::BindRefused) == (DaemonPhase::Terminating, DaemonAction::ExitWithError),
        next(phase, event).1 == DaemonAction::RemoveSocketAndExit ==> phase == DaemonPhase::Listening,
        phase == DaemonPhase::Terminating ==> next(phase, event) == (phase, DaemonAction::Wait),
{
}

} // verus!
