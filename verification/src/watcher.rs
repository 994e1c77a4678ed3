//! The resident watcher's decisions. The watcher itself (the pid lock, the
//! event subscription, the timer) does I/O and runs outside; at each turn it
//! asks these functions what to do.
use vstd::prelude::*;

verus! {

/// What waiting on the event subscription gave.
#[derive(Debug, Clone, Copy, PartialEq, Eq, Structural)]
pub enum Wake {
    /// An event arrived.
    Event,
    /// The reconcile interval passed without one.
    Timeout,
    /// The subscription closed.
    Disconnected,
}

/// What the watcher does next.
#[derive(Debug, Clone, Copy, PartialEq, Eq, Structural)]
pub enum Next {
    /// Reconcile; after an event, first wait out the debounce interval and
    /// drop the events that arrived meanwhile, as one action emits a burst.
    Reconcile { debounce: bool },
    /// Subscribe again.
    Reconnect,
}

/// After an event the watcher reconciles once the burst has settled; when
/// the interval passes it reconciles at once (this is what notices a `cd`);
/// when the subscription closes it reconnects.
pub fn on_wake(w: Wake) -> (n: Next)
    ensures
        n == match w {
            Wake::Event => Next::Reconcile { debounce: true },
            Wake::Timeout => Next::Reconcile { debounce: false },
            Wake::Disconnected => Next::Reconnect,
        },
{
    match w {
        Wake::Event => Next::Reconcile { debounce: true },
        Wake::Timeout => Next::Reconcile { debounce: false },
        Wake::Disconnected => Next::Reconnect,
    }
}

/// The pid to check for a newer watcher: the recorded one, unless it is
/// ours. The watcher is superseded when that process is a live watcher.
pub fn rival_watcher(me: u32, recorded: Option<u32>) -> (r: Option<u32>)
    ensures
        r == match recorded {
            Some(pid) => if pid != me {
                Some(pid)
            } else {
                None
            },
            None => None,
        },
{
    match recorded {
        Some(pid) => if pid != me {
            Some(pid)
        } else {
            None
        },
        None => None,
    }
}

/// What the watcher does when the pid lock it tries to take exists.
#[derive(Debug, Clone, Copy, PartialEq, Eq, Structural)]
pub enum LockBusy {
    /// Another watcher holds the lock, or is taking it: exit.
    GiveUp,
    /// The lock was left by a watcher that died: remove it and try again.
    ClearStale,
}

/// The pid file could not be created because it exists; `recorded` is the
/// pid it holds, when it could be read, and `holder_alive` whether that
/// process lives. A live holder keeps the lock, and so does a file that
/// cannot be read yet (another watcher is taking the lock and must not be
/// raced); a dead holder's lock is stale.
pub fn on_lock_busy(recorded: Option<u32>, holder_alive: bool) -> (a: LockBusy)
    ensures
        a == (if recorded is Some && !holder_alive {
            LockBusy::ClearStale
        } else {
            LockBusy::GiveUp
        }),
{
    match recorded {
        Some(_) => if holder_alive {
            LockBusy::GiveUp
        } else {
            LockBusy::ClearStale
        },
        None => LockBusy::GiveUp,
    }
}

} // verus!
