use witnos::pty::{clamp_size, default_cols, default_rows, load_next_id, next_id, Out, Ring, RING_BYTES};

fn text(bytes: &[u8]) -> String {
    String::from_utf8_lossy(bytes).into_owned()
}

/// Bytes pushed before the attach are in the snapshot, bytes pushed after are
/// in the backlog, and no byte is in both or in neither.
#[test]
fn attach_splits_the_stream_with_no_gap_and_no_duplication() {
    let mut out = Out::new();
    out.push(b"before-the-attach\n");
    let (replay, backlog) = out.attach();
    out.push(b"after-the-attach\n");
    out.close_all();

    assert_eq!(text(&replay), "before-the-attach\n");
    let mut live = Vec::new();
    while let Some(chunk) = out.next_chunk(backlog) {
        live.extend_from_slice(&chunk);
    }
    assert!(out.is_finished(backlog));
    assert_eq!(text(&live), "after-the-attach\n");
}

/// A second window on the same pane gets its own replay, and the first one
/// leaving does not disturb it.
#[test]
fn two_clients_each_get_their_own_replay() {
    let mut out = Out::new();
    out.push(b"shared\n");
    let (first_replay, first) = out.attach();
    let (second_replay, second) = out.attach();
    assert_eq!(text(&first_replay), text(&second_replay));
    out.detach(first);
    assert_eq!(out.listeners(), 1);
    out.push(b"still-live\n");
    assert_eq!(text(&out.next_chunk(second).unwrap()), "still-live\n");
}

/// A truncated replay resumes at the first newline.
#[test]
fn a_truncated_ring_keeps_the_tail_and_resumes_on_a_line_boundary() {
    let mut ring = Ring::new();
    ring.push(b"oldest\n");
    assert_eq!(text(&ring.snapshot()), "oldest\n", "nothing dropped yet");

    ring.push(&vec![b'x'; RING_BYTES]);
    ring.push(b"\x1b[31mcut-me");
    ring.push(b"\nkept: \xe4\xb8\xad\n");
    let snap = ring.snapshot();
    assert!(
        snap.starts_with(b"kept: "),
        "a truncated replay must resume after a newline, got: {:?}",
        text(&snap[..snap.len().min(40)])
    );
    assert!(snap.len() <= RING_BYTES);
    assert!(text(&snap).contains('中'), "the tail must survive intact");
}

/// A client that stops reading is dropped rather than allowed to stall.
#[test]
fn a_client_that_never_reads_is_dropped_rather_than_allowed_to_stall_the_pane() {
    let mut out = Out::new();
    let (_replay, backlog) = out.attach();
    let chunk = vec![b'.'; 64 * 1024];
    while out.listeners() > 0 {
        out.push(&chunk);
        assert!(
            out.ring_len() <= RING_BYTES,
            "the ring is what stays bounded; the client is what gets dropped"
        );
    }
    assert!(
        out.next_chunk(backlog).is_some(),
        "what it did receive is still there to drain"
    );
}

#[test]
fn a_ring_that_never_overflowed_replays_everything() {
    let mut ring = Ring::new();
    ring.push(b"no newline at all");
    ring.push(b"\nsecond");
    assert_eq!(text(&ring.snapshot()), "no newline at all\nsecond");
    assert_eq!(ring.len(), 24);
}

#[test]
fn an_unknown_client_is_finished_and_reads_nothing() {
    let mut out = Out::new();
    assert!(out.is_finished(42));
    assert!(out.next_chunk(42).is_none());
    let (_r, h) = out.attach();
    assert!(!out.is_finished(h));
    assert!(out.next_chunk(h).is_none());
    out.detach(h);
    assert!(out.is_finished(h));
    assert_eq!(out.listeners(), 0);
}

#[test]
fn a_new_pane_is_eighty_by_twenty_four() {
    assert_eq!(default_cols(), 80);
    assert_eq!(default_rows(), 24);
}

#[test]
fn session_ids_start_at_one_and_resume_from_the_stored_next() {
    assert_eq!(load_next_id(None), 1);
    assert_eq!(load_next_id(Some(0)), 1);
    assert_eq!(load_next_id(Some(7)), 7);
    assert_eq!(load_next_id(Some(u32::MAX as u64)), u32::MAX);
    assert_eq!(load_next_id(Some(u32::MAX as u64 + 1)), 1);
}

#[test]
fn an_id_is_handed_out_once_and_the_space_can_run_out() {
    assert_eq!(next_id(1), Ok((1, 2)));
    assert_eq!(next_id(41), Ok((41, 42)));
    assert_eq!(next_id(u32::MAX), Err("session id space exhausted".to_string()));
}

#[test]
fn a_pane_is_at_least_one_cell_each_way() {
    assert_eq!(clamp_size(0, 0), (1, 1));
    assert_eq!(clamp_size(0, 30), (1, 30));
    assert_eq!(clamp_size(120, 0), (120, 1));
    assert_eq!(clamp_size(100, 40), (100, 40));
}

#[test]
fn a_reader_gets_its_chunks_in_order_and_ends_only_once_closed_and_drained() {
    let mut out = Out::new();
    let (_replay, h) = out.attach();
    out.push(b"one ");
    out.push(b"two ");
    assert_eq!(text(&out.next_chunk(h).unwrap()), "one ");
    out.push(b"three");
    assert_eq!(text(&out.next_chunk(h).unwrap()), "two ");
    assert!(!out.is_finished(h));
    out.close_all();
    assert!(!out.is_finished(h), "a chunk is still queued");
    assert_eq!(text(&out.next_chunk(h).unwrap()), "three");
    assert!(out.is_finished(h));
    assert!(out.next_chunk(h).is_none());
}

#[test]
fn closing_hands_each_client_its_rest_and_then_ends() {
    let mut out = Out::new();
    let (_ra, a) = out.attach();
    let (_rb, b) = out.attach();
    out.push(b"x1 ");
    out.push(b"x2");
    assert_eq!(text(&out.next_chunk(a).unwrap()), "x1 ");
    out.close_all();
    assert_eq!(out.listeners(), 0);
    out.push(b"too late");
    assert_eq!(text(&out.next_chunk(a).unwrap()), "x2");
    assert!(out.next_chunk(a).is_none() && out.is_finished(a));
    assert_eq!(text(&out.next_chunk(b).unwrap()), "x1 ");
    assert_eq!(text(&out.next_chunk(b).unwrap()), "x2");
    assert!(out.next_chunk(b).is_none() && out.is_finished(b));
}
