use cryptman::pipeline::{
    decrypt_queue_bound, encrypt_queue_bound, worker_count, zeroizer_count, ChunkReorder,
    DecryptSchedule, EncryptSchedule,
};

#[test]
fn reorder_releases_in_index_order() {
    let mut r: ChunkReorder<&str> = ChunkReorder::new();
    assert!(r.accept(2, "c").is_empty());
    assert!(r.accept(1, "b").is_empty());
    assert_eq!(r.accept(0, "a"), vec!["a", "b", "c"]);
    assert_eq!(r.next_index(), 3);
    assert!(r.accept(4, "e").is_empty());
    assert_eq!(r.accept(3, "d"), vec!["d", "e"]);
    assert_eq!(r.next_index(), 5);
}

#[test]
fn reorder_any_permutation() {
    let order = [5u32, 0, 3, 1, 7, 2, 6, 4];
    let mut r: ChunkReorder<u32> = ChunkReorder::new();
    let mut out = Vec::new();
    for i in order {
        out.extend(r.accept(i, i * 10));
    }
    assert_eq!(out, vec![0, 10, 20, 30, 40, 50, 60, 70]);
}

#[test]
fn pipeline_shapes() {
    assert_eq!(worker_count(8, 100), 8);
    assert_eq!(worker_count(64, 100), 16);
    assert_eq!(worker_count(8, 3), 3);
    assert_eq!(worker_count(0, 3), 1);
    assert_eq!(worker_count(4, 0), 1);
    assert_eq!(encrypt_queue_bound(3), 6);
    assert_eq!(encrypt_queue_bound(16), 16);
    assert_eq!(encrypt_queue_bound(0), 1);
    assert_eq!(decrypt_queue_bound(3), 12);
    assert_eq!(decrypt_queue_bound(5), 16);
    assert_eq!(zeroizer_count(3, 12), 3);
    assert_eq!(zeroizer_count(16, 4), 4);
    assert_eq!(zeroizer_count(0, 4), 1);
}

#[test]
fn decrypt_schedule_keeps_bound() {
    let mut s = DecryptSchedule::new(5, 2);
    let mut order = Vec::new();
    while !s.finished() {
        while s.can_dispatch() {
            order.push(s.next_dispatch());
            s.note_dispatched();
        }
        s.note_received();
    }
    assert_eq!(order, vec![0, 1, 2, 3, 4]);
    assert!(!s.can_dispatch());
}

#[test]
fn encrypt_schedule_counts_dispatch_and_results() {
    let mut s = EncryptSchedule::new(3);
    assert!(!s.all_dispatched());
    assert!(!s.awaiting());
    assert_eq!(s.next_dispatch(), 0);
    s.note_dispatched();
    s.note_dispatched();
    assert_eq!(s.next_dispatch(), 2);
    assert!(s.awaiting());
    s.note_received();
    s.note_dispatched();
    assert!(s.all_dispatched());
    assert!(!s.finished());
    s.note_received();
    s.note_received();
    assert!(!s.awaiting());
    assert!(s.finished());
}
