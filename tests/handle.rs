use automerge_repo::handle::{closes_on_release, DocumentId, HandleCore, RepoEvent, RepoId};
use std::sync::atomic::AtomicUsize;
use std::sync::Arc;

fn doc_id() -> DocumentId {
    DocumentId { repo: RepoId { name: "repo-a".to_string() }, number: 7 }
}

#[test]
fn close_only_from_the_last_handle() {
    assert!(closes_on_release(1));
    assert!(!closes_on_release(2));
    assert!(!closes_on_release(0));
}

#[test]
fn handle_lifecycle_closes_once() {
    let (tx, rx) = crossbeam_channel::unbounded();
    let first = HandleCore::new(tx, doc_id(), Arc::new(AtomicUsize::new(1)), RepoId { name: "repo-a".to_string() });
    let second = first.share();
    let third = second.share();
    assert_eq!(third.document_id().number, 7);
    assert_eq!(third.local_repo_id().name, "repo-a");
    assert_eq!(second.release(), (3, false));
    assert!(rx.try_recv().is_err());
    assert_eq!(first.release(), (2, false));
    assert_eq!(third.release(), (1, true));
    match rx.try_recv() {
        Ok(RepoEvent::DocClosed(id)) => assert_eq!(id.number, 7),
        _ => panic!("expected a close event"),
    }
    assert!(rx.try_recv().is_err());
}

#[test]
fn mutation_and_observer_events_reach_the_repo() {
    let (tx, rx) = crossbeam_channel::unbounded();
    let h = HandleCore::new(tx, doc_id(), Arc::new(AtomicUsize::new(1)), RepoId { name: "r".to_string() });
    assert!(h.notify_changed());
    assert!(matches!(rx.try_recv(), Ok(RepoEvent::DocChange(_))));
    let waiter = h.changed();
    match rx.try_recv() {
        Ok(RepoEvent::AddChangeObserver(id, observer)) => {
            assert_eq!(id.number, 7);
            assert!(observer.send(Ok(())).is_ok());
        }
        _ => panic!("expected an observer"),
    }
    assert!(matches!(waiter.recv(), Ok(Ok(()))));
}

#[test]
fn observer_fails_once_the_repo_is_gone() {
    let (tx, rx) = crossbeam_channel::unbounded();
    let h = HandleCore::new(tx, doc_id(), Arc::new(AtomicUsize::new(1)), RepoId { name: "r".to_string() });
    drop(rx);
    assert!(!h.notify_changed());
    let waiter = h.changed();
    assert!(waiter.recv().is_err());
}

#[test]
fn events_name_the_document() {
    let (tx, _rx) = crossbeam_channel::unbounded();
    let h = HandleCore::new(tx, doc_id(), Arc::new(AtomicUsize::new(1)), RepoId { name: "r".to_string() });
    assert!(matches!(h.closed_event(), RepoEvent::DocClosed(id) if id.number == 7 && id.repo.name == "repo-a"));
    assert!(matches!(h.change_event(), RepoEvent::DocChange(id) if id.number == 7));
    let (obs, waiter) = crossbeam_channel::bounded(1);
    match h.observer_event(obs) {
        RepoEvent::AddChangeObserver(id, o) => {
            assert_eq!(id.number, 7);
            assert!(o.send(Ok(())).is_ok());
        }
        _ => panic!("expected an observer event"),
    }
    assert!(matches!(waiter.recv(), Ok(Ok(()))));
}
