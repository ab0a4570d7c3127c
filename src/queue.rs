//! The unbounded FIFO queue of payloads waiting to be written to the client.
use vstd::prelude::*;
use tokio::sync::mpsc::{UnboundedReceiver, UnboundedSender};

verus! {

/// Both ends of a tokio unbounded channel of payloads. The queue keeps its
/// own receiver for its whole life and never closes it, so a send on it
/// always succeeds.
#[verifier::external_body]
pub struct Outbound {
    tx: UnboundedSender<Vec<u8>>,
    rx: UnboundedReceiver<Vec<u8>>,
}

/// The payloads in the queue, oldest first.
pub uninterp spec fn queued(q: Outbound) -> Seq<Seq<u8>>;

/// Relies on tokio::sync::mpsc::unbounded_channel, which makes a channel
/// with nothing in it.
#[verifier::external_body]
pub(crate) fn outbound_new() -> (q: Outbound)
    ensures
        queued(q) == Seq::<Seq<u8>>::empty(),
{
    let (tx, rx) = tokio::sync::mpsc::unbounded_channel();
    Outbound { tx, rx }
}

/// Relies on UnboundedSender::send, which adds the payload at the back of
/// the channel while its receiver is open.
#[verifier::external_body]
pub(crate) fn outbound_push(q: &mut Outbound, p: Vec<u8>)
    ensures
        queued(*final(q)) == queued(*old(q)).push(p@),
{
    let _ = q.tx.send(p);
}

/// Relies on UnboundedReceiver::try_recv, which takes the oldest payload,
/// or reports that the channel is empty.
#[verifier::external_body]
pub(crate) fn outbound_pop(q: &mut Outbound) -> (r: Option<Vec<u8>>)
    ensures
        queued(*old(q)).len() == 0 ==> r is None && queued(*final(q)) == queued(*old(q)),
        queued(*old(q)).len() > 0 ==> r is Some && r->0@ == queued(*old(q))[0]
            && queued(*final(q)) == queued(*old(q)).drop_first(),
{
    q.rx.try_recv().ok()
}

/// Relies on UnboundedReceiver::len, the number of payloads in the channel.
#[verifier::external_body]
pub(crate) fn outbound_len(q: &Outbound) -> (r: usize)
    ensures
        r == queued(*q).len(),
{
    q.rx.len()
}

} // verus!
