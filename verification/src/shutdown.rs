use tokio_util::sync::CancellationToken;
use vstd::prelude::*;

verus! {

/// `tokio_util`'s cancellation token, carried here as an opaque value.
#[verifier::external_type_specification]
#[verifier::external_body]
pub struct ExCancellationToken(CancellationToken);

/// Whether a task was told to shut down, and the token through which it is told.
pub struct Shutdown {
    is_shutdown: bool,
    notify: CancellationToken,
}

impl Shutdown {
    /// Whether the shutdown signal was received.
    pub closed spec fn received(&self) -> bool {
        self.is_shutdown
    }

    /// The token through which the signal comes.
    pub closed spec fn notifier(&self) -> CancellationToken {
        self.notify
    }

    /// A task that has not been told to shut down, listening on `notify`.
    pub fn new(notify: CancellationToken) -> (r: Self)
        ensures
            !r.received(),
            r.notifier() == notify,
    {
        Self { is_shutdown: false, notify }
    }

    /// Whether the shutdown signal was received.
    pub fn is_shutdown(&self) -> (r: bool)
        ensures
            r == self.received(),
    {
        self.is_shutdown
    }

    /// The token to wait on; there is no need to wait once the signal was received.
    pub fn token(&self) -> (r: &CancellationToken)
        ensures
            *r == self.notifier(),
    {
        &self.notify
    }

    /// Records that the token was cancelled; this cannot be undone.
    pub fn mark_received(&mut self)
        ensures
            final(self).received(),
            final(self).notifier() == old(self).notifier(),
    {
        self.is_shutdown = true;
    }
}

} // verus!
