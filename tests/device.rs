use xdp_socket::{XdpSocket, DEFAULT_FRAME_COUNT, DEFAULT_MTU, DEFAULT_RING_SIZE};

fn total(dev: &XdpSocket) -> usize {
    dev.free_len()
        + dev.fill_len()
        + dev.rx_len()
        + dev.pending_len()
        + dev.tx_len()
        + dev.completion_len()
}

fn pattern(n: usize, seed: u8) -> Vec<u8> {
    let mut v = Vec::new();
    for i in 0..n {
        v.push((i as u8).wrapping_mul(7).wrapping_add(seed));
    }
    v
}

#[test]
fn new_uses_default_geometry() {
    let dev = XdpSocket::new("eth0");
    assert_eq!(dev.frame_count(), 4096);
    assert_eq!(dev.frame_size(), 4096);
    assert_eq!(dev.fill_len(), DEFAULT_RING_SIZE);
    assert_eq!(dev.free_len(), DEFAULT_FRAME_COUNT - DEFAULT_RING_SIZE);
    assert_eq!(dev.capabilities().max_transmission_unit, DEFAULT_MTU);
    assert_eq!(dev.capabilities().max_transmission_unit, 9001);
    assert_eq!(dev.name(), "eth0");
    assert_eq!(total(&dev), 4096);
}

#[test]
fn small_pool_fills_every_frame() {
    let dev = XdpSocket::with_geometry("lo", 4, 64, 16, 16, 1500);
    assert_eq!(dev.fill_len(), 4);
    assert_eq!(dev.free_len(), 0);
    assert_eq!(dev.capabilities().max_transmission_unit, 1500);
}

#[test]
fn end_to_end_echo() {
    let mut dev = XdpSocket::new("eth0");
    let frame = pattern(64, 3);
    assert!(dev.kernel_deliver(&frame));
    let sends = dev.send_count();
    let (rx, tx) = dev.receive().expect("a frame was delivered");
    let got = rx.consume(|b: Vec<u8>| b);
    assert_eq!(got.len(), 64);
    assert_eq!(got, frame);
    let echoed = got.clone();
    let seen = tx.consume(&mut dev, 64, move |b: Vec<u8>| {
        let n = b.len();
        (echoed, n)
    });
    assert_eq!(seen, 64);
    assert_eq!(dev.send_count(), sends + 1);
    assert_eq!(dev.tx_len(), 1);
    let sent = dev.kernel_transmit().expect("one frame on the transmit ring");
    assert_eq!(sent, frame);
    assert_eq!(total(&dev), 4096);
}

#[test]
fn transmit_without_receive_gets_empty_buffer() {
    let mut dev = XdpSocket::new("eth0");
    assert!(dev.receive().is_none());
    let tx = dev.transmit().expect("transmit always gives a token");
    let seen = tx.consume(&mut dev, 64, |b: Vec<u8>| {
        let n = b.len();
        (vec![1u8; 64], n)
    });
    assert_eq!(seen, 0);
    assert_eq!(dev.send_count(), 0);
    assert_eq!(dev.tx_len(), 0);
}

#[test]
fn transmit_on_fresh_device_gets_empty_buffer() {
    let mut dev = XdpSocket::with_geometry("lo", 4, 64, 4, 4, 1500);
    let tx = dev.transmit().unwrap();
    let seen = tx.consume(&mut dev, 10, |b: Vec<u8>| {
        let n = b.len();
        (b, n)
    });
    assert_eq!(seen, 0);
}

#[test]
fn empty_receive_wakes_kernel_when_asked() {
    let mut dev = XdpSocket::with_geometry("lo", 4, 64, 4, 4, 1500);
    assert!(dev.receive().is_none());
    assert_eq!(dev.wake_count(), 0);
    dev.set_needs_wakeup(true);
    assert!(dev.receive().is_none());
    assert_eq!(dev.wake_count(), 1);
}

#[test]
fn short_handler_output_is_padded_and_long_is_cut() {
    let mut dev = XdpSocket::with_geometry("lo", 4, 64, 4, 4, 1500);
    assert!(dev.kernel_deliver(&pattern(20, 1)));
    let (_rx, tx) = dev.receive().unwrap();
    tx.consume(&mut dev, 8, |_b: Vec<u8>| (vec![9u8, 9, 9], ()));
    assert_eq!(dev.kernel_transmit().unwrap(), vec![9u8, 9, 9, 0, 0, 0, 0, 0]);

    assert!(dev.kernel_deliver(&pattern(20, 2)));
    let (_rx, tx) = dev.receive().unwrap();
    tx.consume(&mut dev, 2, |_b: Vec<u8>| (vec![5u8, 6, 7, 8], ()));
    assert_eq!(dev.kernel_transmit().unwrap(), vec![5u8, 6]);
}

#[test]
fn handler_gets_zeroed_buffer_of_requested_length() {
    let mut dev = XdpSocket::with_geometry("lo", 4, 64, 4, 4, 1500);
    assert!(dev.kernel_deliver(&pattern(30, 4)));
    let (_rx, tx) = dev.receive().unwrap();
    let given = tx.consume(&mut dev, 12, |b: Vec<u8>| (b.clone(), b));
    assert_eq!(given, vec![0u8; 12]);
}

#[test]
fn deliver_fails_when_fill_ring_is_empty() {
    let mut dev = XdpSocket::with_geometry("lo", 2, 64, 2, 2, 1500);
    assert!(dev.kernel_deliver(&pattern(5, 0)));
    assert!(dev.kernel_deliver(&pattern(5, 0)));
    assert!(!dev.kernel_deliver(&pattern(5, 0)));
    assert_eq!(dev.rx_len(), 2);
    assert_eq!(total(&dev), 2);
}

#[test]
fn partial_fill_is_retried() {
    let mut dev = XdpSocket::with_geometry("lo", 8, 64, 2, 8, 1500);
    assert_eq!(dev.fill_len(), 2);
    assert_eq!(dev.free_len(), 6);
    // A fill that asks for more than the ring holds is cut short, not refused.
    assert_eq!(dev.fill_from_pool(5), 0);
    assert!(dev.kernel_deliver(&pattern(10, 0)));
    assert!(dev.kernel_deliver(&pattern(10, 1)));
    assert_eq!(dev.fill_len(), 0);
    let (_rx, tx) = dev.receive().unwrap();
    tx.consume(&mut dev, 10, |b: Vec<u8>| (b, ()));
    // The transmit offered one frame of the pool.
    assert_eq!(dev.fill_len(), 1);
    assert_eq!(dev.free_len(), 5);
    // The ring has room for one more of the five asked for.
    assert_eq!(dev.fill_from_pool(5), 1);
    assert_eq!(dev.fill_len(), 2);
    assert_eq!(dev.free_len(), 4);
    // A full ring takes nothing; the pool keeps the frame for later.
    let (_rx, tx) = dev.receive().unwrap();
    tx.consume(&mut dev, 10, |b: Vec<u8>| (b, ()));
    assert_eq!(dev.fill_len(), 2);
    assert_eq!(dev.free_len(), 4);
    assert_eq!(total(&dev), 8);
}

#[test]
fn frames_are_conserved_over_many_cycles() {
    let mut dev = XdpSocket::with_geometry("lo", 16, 128, 8, 4, 1500);
    for round in 0..200u32 {
        let data = pattern(((round % 100) + 1) as usize, round as u8);
        dev.kernel_deliver(&data);
        if let Some((rx, tx)) = dev.receive() {
            let got = rx.consume(|b: Vec<u8>| b);
            if round % 3 != 0 {
                if dev.tx_len() == 4 {
                    dev.kernel_transmit();
                }
                let len = got.len();
                tx.consume(&mut dev, len, move |_b: Vec<u8>| (got, ()));
            }
        }
        if round % 2 == 0 {
            dev.kernel_transmit();
        }
        assert_eq!(total(&dev), 16);
    }
}

#[test]
fn received_frame_returns_once_per_cycle() {
    let mut dev = XdpSocket::with_geometry("lo", 2, 64, 2, 1, 1500);
    for round in 0..50u8 {
        assert!(dev.kernel_deliver(&pattern(16, round)));
        let (rx, _tx) = dev.receive().unwrap();
        assert_eq!(rx.consume(|b: Vec<u8>| b), pattern(16, round));
        // Only the newest frame waits; the one before went back to the ring.
        assert_eq!(dev.pending_len(), 1);
        assert_eq!(dev.fill_len(), 1);
        assert_eq!(dev.free_len(), 0);
    }
}

#[test]
fn sent_frame_is_reclaimed_through_completion() {
    let mut dev = XdpSocket::with_geometry("lo", 2, 64, 2, 2, 1500);
    assert!(dev.kernel_deliver(&pattern(8, 0)));
    let (_rx, tx) = dev.receive().unwrap();
    tx.consume(&mut dev, 8, |b: Vec<u8>| (b, ()));
    assert_eq!(dev.tx_len(), 1);
    assert!(dev.kernel_transmit().is_some());
    assert_eq!(dev.completion_len(), 1);
    assert_eq!(dev.service_completion(4), 1);
    assert_eq!(dev.completion_len(), 0);
    assert_eq!(total(&dev), 2);
}

#[test]
fn servicing_completions_before_refill_keeps_fill_supplied() {
    // Send five of eight frames, then let the kernel complete them all.
    let run = |service_first: bool| -> usize {
        let mut dev = XdpSocket::with_geometry("lo", 8, 64, 8, 8, 1500);
        for i in 0..5u8 {
            assert!(dev.kernel_deliver(&pattern(8, i)));
            let (_rx, tx) = dev.receive().unwrap();
            tx.consume(&mut dev, 8, |b: Vec<u8>| (b, ()));
        }
        while dev.kernel_transmit().is_some() {}
        if service_first {
            dev.service_completion(8);
            let n = dev.free_len();
            dev.fill_from_pool(n);
        } else {
            let n = dev.free_len();
            dev.fill_from_pool(n);
            dev.service_completion(8);
        }
        dev.fill_len()
    };
    assert_eq!(run(true), 8);
    assert!(run(false) < 8);
}

#[test]
fn try_send_counts_every_attempt() {
    let mut dev = XdpSocket::with_geometry("lo", 4, 64, 4, 1, 1500);
    assert_eq!(dev.try_send(), 0);
    assert_eq!(dev.send_count(), 1);
    assert!(dev.kernel_deliver(&pattern(4, 0)));
    assert_eq!(dev.try_recv(), 1);
    assert_eq!(dev.try_send(), 1);
    assert!(dev.kernel_deliver(&pattern(4, 1)));
    assert_eq!(dev.try_recv(), 1);
    // The transmit ring is full: the frame stays pending.
    assert_eq!(dev.try_send(), 0);
    assert_eq!(dev.pending_len(), 1);
    assert_eq!(dev.send_count(), 3);
}

#[test]
fn release_pending_returns_frames_to_pool() {
    let mut dev = XdpSocket::with_geometry("lo", 4, 64, 4, 4, 1500);
    assert!(dev.kernel_deliver(&pattern(4, 0)));
    assert!(dev.kernel_deliver(&pattern(4, 1)));
    assert_eq!(dev.try_recv(), 1);
    assert_eq!(dev.try_recv(), 1);
    assert_eq!(dev.try_recv(), 0);
    assert_eq!(dev.pending_len(), 2);
    dev.release_pending();
    assert_eq!(dev.pending_len(), 0);
    assert_eq!(dev.free_len(), 2);
}

#[test]
fn empty_receive_changes_only_completions() {
    let mut dev = XdpSocket::with_geometry("lo", 4, 64, 2, 2, 1500);
    assert!(dev.kernel_deliver(&pattern(8, 0)));
    let (_rx, _tx) = dev.receive().unwrap();
    assert_eq!(dev.free_len(), 2);
    assert_eq!(dev.fill_len(), 1);
    assert!(dev.receive().is_none());
    assert_eq!(dev.pending_len(), 1);
    assert_eq!(dev.free_len(), 2);
    assert_eq!(dev.fill_len(), 1);
    // The frame left pending belongs to an earlier cycle: a transmit now
    // gets an empty buffer.
    let tx = dev.transmit().unwrap();
    let seen = tx.consume(&mut dev, 8, |b: Vec<u8>| {
        let n = b.len();
        (b, n)
    });
    assert_eq!(seen, 0);
    assert_eq!(dev.tx_len(), 0);
}

#[test]
fn second_transmit_in_a_cycle_gets_empty_buffer() {
    let mut dev = XdpSocket::with_geometry("lo", 4, 64, 4, 4, 1500);
    assert!(dev.kernel_deliver(&pattern(8, 0)));
    let (_rx, tx) = dev.receive().unwrap();
    let first = tx.consume(&mut dev, 8, |b: Vec<u8>| {
        let n = b.len();
        (b, n)
    });
    assert_eq!(first, 8);
    let second = dev.transmit().unwrap().consume(&mut dev, 8, |b: Vec<u8>| {
        let n = b.len();
        (b, n)
    });
    assert_eq!(second, 0);
    assert_eq!(dev.send_count(), 1);
}

#[test]
fn receive_services_at_most_one_completion() {
    let mut dev = XdpSocket::with_geometry("lo", 4, 64, 4, 4, 1500);
    for i in 0..2u8 {
        assert!(dev.kernel_deliver(&pattern(8, i)));
        let (_rx, tx) = dev.receive().unwrap();
        tx.consume(&mut dev, 8, |b: Vec<u8>| (b, ()));
    }
    assert!(dev.kernel_transmit().is_some());
    assert!(dev.kernel_transmit().is_some());
    assert_eq!(dev.completion_len(), 2);
    let free = dev.free_len();
    assert!(dev.receive().is_none());
    assert_eq!(dev.completion_len(), 1);
    assert_eq!(dev.free_len(), free + 1);
}

#[test]
fn pump_plan_follows_device_limits() {
    let lens = vec![60usize, 5000, 70, 80];
    let p = xdp_socket::plan_pump(&lens, 4096, 3, true, 10, 4);
    assert_eq!(p.service, 1);
    assert_eq!(p.deliver, vec![true, false, true, false]);
    assert!(!p.wake);
    assert_eq!(p.send, 4);
    assert_eq!(p.fill, 6);
    let q = xdp_socket::plan_pump(&Vec::new(), 4096, 3, true, 2, 5);
    assert!(q.wake);
    assert_eq!(q.send, 2);
    assert_eq!(q.fill, 0);
}
