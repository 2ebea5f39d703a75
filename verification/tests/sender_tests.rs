use moose_irc2::ircstate::IrcState;
use moose_irc2::parse::Message;
use moose_irc2::sender::{next_transmission, NextSend, Priority, SendQueues, TokenBucket, LOW_CAP};

fn named(tag: &str) -> Message {
    Message::of_command(tag, vec![])
}

fn cmd_of(m: &Message) -> Vec<u8> {
    m.command.clone().unwrap()
}

#[test]
fn test_priority_precedence() {
    // whatever order things were queued in, transmission order is
    // High, then Notify, then Low
    let mut q = SendQueues::new();
    assert!(q.push_low(named("LOW1")));
    assert!(q.push_notify(named("NOTE")));
    q.push_high(named("HIGH1"));
    assert!(q.push_low(named("LOW2")));
    q.push_high(named("HIGH2"));

    let order: Vec<(Vec<u8>, Priority)> = std::iter::from_fn(|| q.pop_next())
        .map(|(m, p)| (cmd_of(&m), p))
        .collect();
    assert_eq!(
        order,
        vec![
            (b"HIGH1".to_vec(), Priority::High),
            (b"HIGH2".to_vec(), Priority::High),
            (b"NOTE".to_vec(), Priority::Notify),
            (b"LOW1".to_vec(), Priority::Low),
            (b"LOW2".to_vec(), Priority::Low),
        ]
    );
    assert!(q.pop_next().is_none());
}

#[test]
fn test_notify_slot_drops_new_notice() {
    let mut q = SendQueues::new();
    assert!(q.push_notify(named("FIRST")));
    assert!(!q.push_notify(named("SECOND")));
    let (m, p) = q.pop_next().unwrap();
    assert!(matches!(p, Priority::Notify));
    assert_eq!(cmd_of(&m), b"FIRST".to_vec());
    assert!(q.pop_next().is_none());
}

#[test]
fn test_low_queue_is_bounded_and_lossy() {
    let mut q = SendQueues::new();
    for _ in 0..LOW_CAP {
        assert!(q.push_low(named("L")));
    }
    assert!(!q.push_low(named("OVERFLOW")), "over the bound the message is dropped");
}

#[test]
fn test_rate_limiting() {
    // burst 3 at 350ms: three sends pass at once, the fourth waits
    // about one interval
    let mut bucket = TokenBucket::new(3, 350, 0);
    assert!(bucket.try_acquire(0));
    assert!(bucket.try_acquire(0));
    assert!(bucket.try_acquire(0));
    assert!(!bucket.try_acquire(0));
    assert_eq!(bucket.ms_until_ready(0), 350);
    assert!(!bucket.try_acquire(349));
    assert!(bucket.try_acquire(350));
    assert!(!bucket.try_acquire(351));
}

#[test]
fn test_bucket_refills_up_to_burst_only() {
    let mut bucket = TokenBucket::new(2, 100, 0);
    assert!(bucket.try_acquire(0));
    assert!(bucket.try_acquire(0));
    // a long silence refills at most `burst` tokens
    assert!(bucket.try_acquire(100000));
    assert!(bucket.try_acquire(100000));
    assert!(!bucket.try_acquire(100000));
}

#[test]
fn test_high_and_notify_bypass_throttle() {
    let mut q = SendQueues::new();
    let mut bucket = TokenBucket::new(1, 1000, 0);
    assert!(bucket.try_acquire(0), "drain the only token");
    q.push_high(named("HIGH"));
    assert!(q.push_notify(named("NOTE")));
    assert!(q.push_low(named("LOW")));
    assert!(matches!(
        next_transmission(&mut q, &mut bucket, 0),
        NextSend::Transmit(_, Priority::High)
    ));
    assert!(matches!(
        next_transmission(&mut q, &mut bucket, 0),
        NextSend::Transmit(_, Priority::Notify)
    ));
    match next_transmission(&mut q, &mut bucket, 0) {
        NextSend::Wait(w) => assert_eq!(w, 1000),
        _ => panic!("an empty bucket must delay low traffic"),
    }
    // the low message is still queued and goes out once a token refills
    match next_transmission(&mut q, &mut bucket, 1000) {
        NextSend::Transmit(m, Priority::Low) => assert_eq!(cmd_of(&m), b"LOW".to_vec()),
        _ => panic!("expected the delayed low message"),
    }
    assert!(matches!(next_transmission(&mut q, &mut bucket, 1000), NextSend::Idle));
}

#[test]
fn test_moose_token_bucket_through_session() {
    // no configured delay: the fetch token is always refused
    let disabled = IrcState::new("Bot".to_string(), None, vec![], "u".to_string(), 0);
    assert!(!disabled.acquire_moose_token());
    // a configured delay starts with one token and then runs dry
    let limited = IrcState::new("Bot".to_string(), None, vec![], "u".to_string(), 60000);
    assert!(limited.acquire_moose_token());
    assert!(!limited.acquire_moose_token());
}
