//! Id issuance and request resolution.

use lsp_core::correlator::Correlator;

#[test]
fn ids_start_at_one_and_strictly_increase() {
    let mut c: Correlator<&'static str> = Correlator::new();
    let mut issued = Vec::new();
    for _ in 0..16 {
        issued.push(c.next_id());
    }
    assert_eq!(issued[0], 1);
    for w in issued.windows(2) {
        assert!(w[0] < w[1]);
    }
    // pairwise distinct follows, but check it directly as well
    for a in 0..issued.len() {
        for b in a + 1..issued.len() {
            assert_ne!(issued[a], issued[b]);
        }
    }
}

#[test]
fn complete_resolves_each_id_exactly_once() {
    let mut c: Correlator<&'static str> = Correlator::new();
    let id = c.next_id();
    c.register(id, "handle-a");
    assert!(c.is_pending(id));
    assert_eq!(c.complete(id), Some("handle-a"));
    assert!(!c.is_pending(id));
    // a second completion of the same id is a silent no-op
    assert_eq!(c.complete(id), None);
}

#[test]
fn complete_unknown_id_is_a_no_op() {
    let mut c: Correlator<u32> = Correlator::new();
    let id = c.next_id();
    c.register(id, 7);
    assert_eq!(c.complete(999), None);
    assert!(c.is_pending(id));
    assert_eq!(c.pending_count(), 1);
}

#[test]
fn responses_resolve_out_of_order() {
    let mut c: Correlator<u32> = Correlator::new();
    let id1 = c.next_id();
    c.register(id1, 10);
    let id2 = c.next_id();
    c.register(id2, 20);
    assert_eq!(c.complete(id2), Some(20));
    assert_eq!(c.complete(id1), Some(10));
}

#[test]
fn cancel_all_drains_every_entry() {
    let mut c: Correlator<u32> = Correlator::new();
    let mut ids = Vec::new();
    for k in 0..5u32 {
        let id = c.next_id();
        c.register(id, 100 + k);
        ids.push(id);
    }
    let drained = c.cancel_all();
    assert_eq!(drained.len(), 5);
    for (k, (id, handle)) in drained.iter().enumerate() {
        assert_eq!(*id, ids[k]);
        assert_eq!(*handle, 100 + k as u32);
    }
    assert_eq!(c.pending_count(), 0);
    for id in ids {
        assert!(!c.is_pending(id));
    }
}
