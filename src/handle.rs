//! The shared state behind the handles to one document: the reference count
//! that decides when the document closes, and the channel to the repo that
//! carries change, close and observer events.

use vstd::prelude::*;
use std::sync::Arc;
use std::sync::atomic::{AtomicUsize, Ordering};
use crossbeam_channel::{Receiver, Sender};

verus! {

/// crossbeam_channel's sending side, carried through opaque.
#[verifier::external_type_specification]
#[verifier::external_body]
#[verifier::reject_recursive_types(T)]
pub struct ExSender<T>(crossbeam_channel::Sender<T>);

/// crossbeam_channel's receiving side, carried through opaque.
#[verifier::external_type_specification]
#[verifier::external_body]
#[verifier::reject_recursive_types(T)]
pub struct ExReceiver<T>(crossbeam_channel::Receiver<T>);

/// The id of a repo, one per node.
pub struct RepoId {
    pub name: String,
}

impl Clone for RepoId {
    fn clone(&self) -> (r: Self)
        ensures
            r == *self,
    {
        RepoId { name: self.name.clone() }
    }
}

/// The id of a document: the repo that created it and a number unique there.
pub struct DocumentId {
    pub repo: RepoId,
    pub number: u64,
}

impl Clone for DocumentId {
    fn clone(&self) -> (r: Self)
        ensures
            r == *self,
    {
        DocumentId { repo: self.repo.clone(), number: self.number }
    }
}

/// Why a wait on a document ended without a change.
pub enum RepoError {
    /// The repo has stopped.
    Shutdown,
}

/// What a handle tells the repo.
pub enum RepoEvent {
    /// The document was mutated through a handle.
    DocChange(DocumentId),
    /// The last handle to the document is gone.
    DocClosed(DocumentId),
    /// Resolve this observer on the document's next change, or drop it when
    /// the repo stops.
    AddChangeObserver(DocumentId, Sender<Result<(), RepoError>>),
}

/// Handles alive after `events`, starting from one (`true`: a clone,
/// `false`: a drop).
pub open spec fn live_after(events: Seq<bool>) -> int
    decreases events.len(),
{
    if events.len() == 0 {
        1
    } else {
        live_after(events.drop_last()) + if events.last() { 1int } else { -1int }
    }
}

/// No event comes after the last handle is gone.
pub open spec fn lifecycle_valid(events: Seq<bool>) -> bool {
    forall|k: int| 0 <= k < events.len() ==> live_after(#[trigger] events.take(k)) >= 1
}

/// Event `k` is a drop that sends the close notification.
pub open spec fn closes_at(events: Seq<bool>, k: int) -> bool {
    !events[k] && live_after(events.take(k)) == 1
}

/// How many close notifications `events` send.
pub open spec fn close_count(events: Seq<bool>) -> int
    decreases events.len(),
{
    if events.len() == 0 {
        0
    } else {
        close_count(events.drop_last()) + if closes_at(events, events.len() - 1) { 1int } else { 0int }
    }
}

/// Whether the drop of a handle, with `previous` handles alive before it,
/// closes the document: it does exactly when it was the last one.
pub fn closes_on_release(previous: usize) -> (r: bool)
    ensures
        r == (previous == 1),
{
    previous == 1
}

/// Handles stay counted: each clone adds one and each drop removes one; the
/// close notification is sent exactly once, by the drop that leaves no handle,
/// and never while a handle remains.
pub proof fn lemma_handle_lifecycle(events: Seq<bool>)
    requires
        lifecycle_valid(events),
    ensures
        live_after(events) >= 0,
        close_count(events) == if live_after(events) == 0 { 1int } else { 0int },
        forall|k: int| 0 <= k < events.len() ==> (closes_at(events, k) <==> live_after(#[trigger] events.take(k + 1)) == 0),
    decreases events.len(),
{
    if events.len() > 0 {
        let rest = events.drop_last();
        assert forall|k: int| 0 <= k < rest.len() implies live_after(#[trigger] rest.take(k)) >= 1 by {
            assert(rest.take(k) =~= events.take(k));
        }
        lemma_handle_lifecycle(rest);
        let n = events.len() - 1;
        assert(events.take(n) =~= rest);
        assert(events.take(n + 1) =~= events);
        assert(live_after(events.take(n)) >= 1);
        assert forall|k: int| 0 <= k < events.len() implies (closes_at(events, k) <==> live_after(#[trigger] events.take(k + 1)) == 0) by {
            if k < n {
                assert(events.take(k) =~= rest.take(k));
                assert(events.take(k + 1) =~= rest.take(k + 1));
                assert(rest.take(k + 1).drop_last() =~= rest.take(k));
                assert(live_after(rest.take(k + 1)) >= 1) by {
                    if k + 1 < rest.len() {
                    } else {
                        assert(rest.take(k + 1) =~= rest);
                    }
                }
            } else {
                assert(events.drop_last() =~= rest);
            }
        }
    }
}

/// Relies on crossbeam_channel::Sender::send: it hands `event` to the
/// channel, and fails only when the receiving side is gone.
#[verifier::external_body]
fn send_event(sender: &Sender<RepoEvent>, event: RepoEvent) -> (delivered: bool) {
    sender.send(event).is_ok()
}

/// Relies on crossbeam_channel::bounded: a channel with room for one value.
#[verifier::external_body]
fn observer_channel() -> (r: (Sender<Result<(), RepoError>>, Receiver<Result<(), RepoError>>)) {
    crossbeam_channel::bounded(1)
}

/// Relies on the Clone impl of crossbeam_channel::Sender: another sender
/// into the same channel.
#[verifier::external_body]
fn clone_sender(sender: &Sender<RepoEvent>) -> (r: Sender<RepoEvent>) {
    sender.clone()
}

/// Relies on the Clone impl of std's Arc: another pointer to the same count.
#[verifier::external_body]
fn share_count(count: &Arc<AtomicUsize>) -> (r: Arc<AtomicUsize>) {
    Arc::clone(count)
}

/// The part of a document handle beside the document: the count of live
/// handles, shared by all of them, and the way to the repo.
pub struct HandleCore {
    handle_count: Arc<AtomicUsize>,
    repo_sender: Sender<RepoEvent>,
    document_id: DocumentId,
    local_repo_id: RepoId,
}

impl HandleCore {
    pub closed spec fn spec_document_id(&self) -> DocumentId {
        self.document_id
    }

    pub closed spec fn spec_local_repo_id(&self) -> RepoId {
        self.local_repo_id
    }

    /// The first handle to a document; `handle_count` counts it.
    pub fn new(
        repo_sender: Sender<RepoEvent>,
        document_id: DocumentId,
        handle_count: Arc<AtomicUsize>,
        local_repo_id: RepoId,
    ) -> (r: HandleCore)
        ensures
            r.spec_document_id() == document_id,
            r.spec_local_repo_id() == local_repo_id,
    {
        HandleCore { handle_count, repo_sender, document_id, local_repo_id }
    }

    /// Another handle to the same document, counted.
    pub fn share(&self) -> (r: HandleCore)
        ensures
            r.spec_document_id() == self.spec_document_id(),
            r.spec_local_repo_id() == self.spec_local_repo_id(),
    {
        self.handle_count.fetch_add(1, Ordering::SeqCst);
        HandleCore {
            handle_count: share_count(&self.handle_count),
            repo_sender: clone_sender(&self.repo_sender),
            document_id: self.document_id.clone(),
            local_repo_id: self.local_repo_id.clone(),
        }
    }

    /// The event telling the repo that the last handle is gone.
    pub fn closed_event(&self) -> (e: RepoEvent)
        ensures
            e == RepoEvent::DocClosed(self.spec_document_id()),
    {
        RepoEvent::DocClosed(self.document_id.clone())
    }

    /// The event telling the repo that the document was mutated.
    pub fn change_event(&self) -> (e: RepoEvent)
        ensures
            e == RepoEvent::DocChange(self.spec_document_id()),
    {
        RepoEvent::DocChange(self.document_id.clone())
    }

    /// The event registering `observer` for the document's next change.
    pub fn observer_event(&self, observer: Sender<Result<(), RepoError>>) -> (e: RepoEvent)
        ensures
            e == RepoEvent::AddChangeObserver(self.spec_document_id(), observer),
    {
        RepoEvent::AddChangeObserver(self.document_id.clone(), observer)
    }

    /// Uncounts this handle; when it was the last one, sends the repo
    /// `closed_event`. Returns the count of live handles before this one
    /// was uncounted, and whether it was the last one.
    pub fn release(&self) -> (r: (usize, bool))
        ensures
            r.1 == (r.0 == 1),
    {
        let previous = self.handle_count.fetch_sub(1, Ordering::SeqCst);
        let last = closes_on_release(previous);
        if last {
            send_event(&self.repo_sender, self.closed_event());
        }
        (previous, last)
    }

    /// Sends the repo `change_event`: the document was mutated through this
    /// handle. Returns whether the repo was still there to hear it.
    pub fn notify_changed(&self) -> (delivered: bool) {
        send_event(&self.repo_sender, self.change_event())
    }

    /// Registers a one-shot observer of the document's next change, by
    /// sending the repo `observer_event` with the sending side of a fresh
    /// channel. The receiver gets `Ok(())` on that change; it is
    /// disconnected, with nothing sent, when the repo has stopped.
    pub fn changed(&self) -> Receiver<Result<(), RepoError>> {
        let (observer, fut) = observer_channel();
        send_event(&self.repo_sender, self.observer_event(observer));
        fut
    }

    /// The id of the repo this handle belongs to.
    pub fn local_repo_id(&self) -> (r: RepoId)
        ensures
            r == self.spec_local_repo_id(),
    {
        self.local_repo_id.clone()
    }

    /// The id of the document.
    pub fn document_id(&self) -> (r: DocumentId)
        ensures
            r == self.spec_document_id(),
    {
        self.document_id.clone()
    }
}

} // verus!
