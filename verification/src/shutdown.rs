//! The signal that ends a run of the engine: every task of a run (the proxy
//! loop and the relays) waits on the signal of that run, and stopping the
//! engine notifies it and installs the signal of the next run.

use std::sync::Arc;
use tokio::sync::Notify;
use vstd::prelude::*;

verus! {

/// `tokio::sync::Notify`, on which the tasks of a run wait.
#[verifier::external_type_specification]
#[verifier::external_body]
pub struct ExNotify(Notify);

/// `tokio::sync::Notify::new`: a notifier with no waiting task.
#[verifier::external_body]
fn new_notify() -> Notify {
    Notify::new()
}

/// Another handle to the same shared value (`Arc::clone`).
#[verifier::external_body]
fn share<T>(a: &Arc<T>) -> (r: Arc<T>)
    ensures
        r == *a,
{
    Arc::clone(a)
}

/// The shutdown signal of one run; runs are numbered from 0 by their
/// generation.
pub struct ShutdownSignal {
    notify: Arc<Notify>,
    generation: Ghost<nat>,
}

/// The record that the signal of a run was notified: only
/// [`ShutdownSignal::notify_all`] makes one.
pub struct ShutdownNotice {
    generation: Ghost<nat>,
    notified: Ghost<Notify>,
}

impl ShutdownNotice {
    /// The generation of the signal that was notified.
    pub closed spec fn generation(&self) -> nat {
        self.generation@
    }

    /// The notifier that was notified.
    pub closed spec fn notified(&self) -> Notify {
        self.notified@
    }
}

/// `tokio::sync::Notify::notify_waiters` on the notifier of `signal`: wakes
/// every task that waits on it at the time of the call (tokio's
/// `notify.rs`). The notice returned records which signal was notified.
#[verifier::external_body]
fn notify_all_waiters(signal: &ShutdownSignal) -> (n: ShutdownNotice)
    ensures
        n.generation() == signal.generation(),
        n.notified() == signal.spec_notify(),
{
    signal.notify.notify_waiters();
    ShutdownNotice { generation: Ghost(signal.generation@), notified: Ghost(*signal.notify) }
}

impl ShutdownSignal {
    /// The number of the run this signal belongs to.
    pub closed spec fn generation(&self) -> nat {
        self.generation@
    }

    /// The notifier the tasks of this run wait on.
    pub closed spec fn spec_notify(&self) -> Notify {
        *self.notify
    }

    /// The signal of the first run.
    pub fn first() -> (s: Self)
        ensures
            s.generation() == 0,
    {
        ShutdownSignal { notify: Arc::new(new_notify()), generation: Ghost(0) }
    }

    /// A new signal, with a notifier of its own, for the run after this one.
    pub fn next(&self) -> (s: Self)
        ensures
            s.generation() == self.generation() + 1,
    {
        ShutdownSignal { notify: Arc::new(new_notify()), generation: Ghost(self.generation@ + 1) }
    }

    /// A handle to the notifier, for a task of this run to wait on.
    pub fn handle(&self) -> (r: Arc<Notify>)
        ensures
            *r == self.spec_notify(),
    {
        share(&self.notify)
    }

    /// Wakes every task that waits on this signal.
    pub fn notify_all(&self) -> (n: ShutdownNotice)
        ensures
            n.generation() == self.generation(),
            n.notified() == self.spec_notify(),
    {
        notify_all_waiters(self)
    }
}

} // verus!
