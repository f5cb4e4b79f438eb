//! One-shot promises: a deferred value handed from the core to the UI (the
//! outcome of a pairing) or from the UI to the core (the user's reaction).
//! A resolver fills the slot once; the promise side waits for it.

use vstd::prelude::*;

verus! {

#[verifier::external_type_specification]
#[verifier::external_body]
#[verifier::reject_recursive_types(T)]
pub struct ExReceiver<T>(std::sync::mpsc::Receiver<T>);

#[verifier::external_type_specification]
#[verifier::external_body]
#[verifier::reject_recursive_types(T)]
pub struct ExSyncSender<T>(std::sync::mpsc::SyncSender<T>);

/// Relies on `std::sync::mpsc::sync_channel`: a buffered channel pair whose
/// sender delivers to its receiver; one slot, so a single send never blocks.
#[verifier::external_body]
fn oneshot_channel<T>() -> (r: (std::sync::mpsc::SyncSender<T>, std::sync::mpsc::Receiver<T>))
{
    std::sync::mpsc::sync_channel(1)
}

/// Relies on `SyncSender::try_send`: delivers the value when the slot has
/// room, reporting whether it did.
#[verifier::external_body]
fn oneshot_send<T>(tx: &std::sync::mpsc::SyncSender<T>, value: T) -> (r: bool)
{
    tx.try_send(value).is_ok()
}

/// Relies on `Receiver::recv`: blocks until a value arrives or every sender
/// is gone.
#[verifier::external_body]
fn oneshot_recv<T>(rx: &std::sync::mpsc::Receiver<T>) -> (r: Option<T>)
{
    rx.recv().ok()
}

/// The waiting side of a one-shot value.
#[verifier::reject_recursive_types(T)]
pub struct Promise<T> {
    pub rx: std::sync::mpsc::Receiver<T>,
}

impl<T> Promise<T> {
    /// Blocks until the resolver supplies the value; `None` when the
    /// resolver was dropped unresolved.
    pub fn wait(self) -> Option<T> {
        oneshot_recv(&self.rx)
    }
}

/// The filling side of a one-shot value: resolves at most once.
#[verifier::reject_recursive_types(T)]
pub struct UIResolver<T> {
    pub tx: Option<std::sync::mpsc::SyncSender<T>>,
}

impl<T> UIResolver<T> {
    /// Whether this resolver has not been used yet.
    pub open spec fn pending(&self) -> bool {
        self.tx is Some
    }

    /// Wraps the sending half of a one-shot channel.
    pub fn new(tx: std::sync::mpsc::SyncSender<T>) -> (r: Self)
        ensures
            r.pending(),
    {
        UIResolver { tx: Some(tx) }
    }

    /// Supplies the value. A resolver resolves exactly once.
    pub fn resolve(&mut self, value: T)
        requires
            old(self).pending(),
        ensures
            !final(self).pending(),
    {
        let tx = self.tx.take();
        match tx {
            Some(tx) => {
                let _delivered = oneshot_send(&tx, value);
            },
            None => {},
        }
    }
}

/// A fresh promise and its resolver.
pub fn init_promise<T>() -> (r: (Promise<T>, UIResolver<T>))
    ensures
        r.1.pending(),
{
    let (tx, rx) = oneshot_channel();
    (Promise { rx }, UIResolver::new(tx))
}

} // verus!
