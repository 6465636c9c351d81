use mouros::mailbox::{channel_spsc, Mailbox};

#[test]
fn capacity_writes_succeed_then_fail() {
    let mut mb = Mailbox::new(vec![0u32; 3]);
    assert!(mb.write(1));
    assert!(mb.write(2));
    assert!(mb.write(3));
    assert!(!mb.write(4), "a write into a full mailbox succeeded");
    assert_eq!(mb.read(), Some(1));
    assert!(mb.write(5), "a write after one read failed");
    assert!(!mb.write(6));
}

#[test]
fn scenario_integer_channel() {
    let mut mb = Mailbox::new(vec![0i32; 3]);
    assert!(mb.write(3));
    assert!(mb.write(7));
    assert!(mb.write(9));
    assert!(!mb.write(11), "the fourth write succeeded");
    assert_eq!(mb.read(), Some(3));
    assert_eq!(mb.read(), Some(7));
    assert_eq!(mb.read(), Some(9));
    assert_eq!(mb.read(), None, "a read from an empty mailbox succeeded");
}

#[test]
fn fifo_order_across_interleaved_single_and_batch_ops() {
    let mut mb = Mailbox::new(vec![0u8; 8]);
    assert!(mb.write(1));
    assert_eq!(mb.write_multiple(&[2, 3, 4]), 3);
    assert_eq!(mb.read(), Some(1));
    assert!(mb.write(5));
    let mut out = vec![0u8; 2];
    assert_eq!(mb.read_multiple(&mut out), 2);
    assert_eq!(out, vec![2, 3]);
    assert_eq!(mb.write_multiple(&[6, 7]), 2);
    let mut rest = Vec::new();
    while let Some(v) = mb.read() {
        rest.push(v);
    }
    assert_eq!(rest, vec![4, 5, 6, 7]);
}

#[test]
fn write_multiple_transfers_exactly_what_fits() {
    let mut mb = Mailbox::new(vec![0u16; 4]);
    // k elements with k below the remaining space: exactly k transferred.
    assert_eq!(mb.write_multiple(&[10, 11]), 2);
    // More than the remaining space: exactly the remaining space.
    assert_eq!(mb.write_multiple(&[12, 13, 14, 15]), 2);
    assert_eq!(mb.write_multiple(&[16]), 0);
    for expected in [10, 11, 12, 13] {
        assert_eq!(mb.read(), Some(expected));
    }
    assert_eq!(mb.read(), None);
}

#[test]
fn read_multiple_transfers_exactly_what_is_there() {
    let mut mb = Mailbox::new(vec![0u16; 4]);
    assert_eq!(mb.write_multiple(&[1, 2, 3]), 3);
    let mut out = vec![99u16; 5];
    assert_eq!(mb.read_multiple(&mut out), 3);
    // The transferred prefix, then the untouched tail.
    assert_eq!(out, vec![1, 2, 3, 99, 99]);
    assert_eq!(mb.read_multiple(&mut out), 0);
}

#[test]
fn split_handles_send_and_receive_in_fifo_order() {
    let mut mb = Mailbox::new(vec![0u32; 2]);
    let (rx, tx) = channel_spsc(&mut mb);
    assert!(tx.try_send(&mut mb, 8).is_ok());
    assert!(tx.try_send(&mut mb, 9).is_ok());
    let rejected = tx.try_send(&mut mb, 10);
    match rejected {
        Ok(()) => panic!("a send into a full channel succeeded"),
        Err(e) => assert_eq!(e.0, 10, "the rejected message was not handed back"),
    }
    assert_eq!(rx.try_recv(&mut mb).ok(), Some(8));
    assert_eq!(rx.try_recv(&mut mb).ok(), Some(9));
    assert!(rx.try_recv(&mut mb).is_err(), "a receive from an empty channel succeeded");
    assert!(tx.try_send(&mut mb, 11).is_ok());
    assert_eq!(rx.try_recv(&mut mb).ok(), Some(11));
}

#[test]
fn split_handles_batch_ops_keep_order_and_counts() {
    let mut mb = Mailbox::new(vec![0u32; 3]);
    let (rx, tx) = channel_spsc(&mut mb);
    assert_eq!(tx.write_multiple(&mut mb, &[1, 2, 3, 4]), 3);
    let mut out = vec![0u32; 2];
    assert_eq!(rx.read_multiple(&mut mb, &mut out), 2);
    assert_eq!(out, vec![1, 2]);
    assert_eq!(tx.write_multiple(&mut mb, &[5]), 1);
    let mut out = vec![0u32; 4];
    assert_eq!(rx.read_multiple(&mut mb, &mut out), 2);
    assert_eq!(out, vec![3, 5, 0, 0]);
}

#[test]
fn zero_capacity_mailbox_rejects_everything() {
    let mut mb = Mailbox::new(Vec::<u32>::new());
    assert!(!mb.write(1));
    assert_eq!(mb.read(), None);
    assert_eq!(mb.write_multiple(&[1, 2]), 0);
}

#[test]
fn raw_mailbox_is_reachable() {
    let mut mb = Mailbox::new(vec![0u8; 2]);
    assert!(mb.write(5));
    let _raw = mb.get_raw_mailbox();
    assert_eq!(mb.read(), Some(5));
}
