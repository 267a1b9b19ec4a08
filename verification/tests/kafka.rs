use std::time::Duration;

use bytes::Bytes;
use rand::rngs::SmallRng;
use rand::SeedableRng;
use vector::kafka::backoff::ExponentialBackoff;
use vector::kafka::service::{
    classify_refusal, jittered, BlockedRecordNotifier, BlockedRecordState, CallStep,
    EventFinalizers, EventStatus, KafkaCall, KafkaRequest, KafkaRequestMetadata, KafkaService,
    ProduceErrorCode, Readiness, Refusal, SendOutcome,
};

fn request(body: &'static [u8], key: Option<&'static [u8]>) -> KafkaRequest<u8, &'static str, u32> {
    KafkaRequest {
        body: Bytes::from_static(body),
        metadata: KafkaRequestMetadata {
            finalizers: EventFinalizers { finalizers: vec![1, 2] },
            key: key.map(Bytes::from_static),
            timestamp_millis: Some(17),
            headers: Some("headers"),
            topic: "topic".to_string(),
        },
        request_metadata: 9,
    }
}

fn refused(code: ProduceErrorCode) -> SendOutcome<&'static str> {
    SendOutcome::Refused { code: Some(code), error: "refused" }
}

fn started(service: &KafkaService) -> KafkaCall<(u32, u32)> {
    service.call(request(b"body", Some(b"key")), (3, 40), (0, 0)).0
}

#[test]
fn blocked_record_notifier_wakes_on_transition_to_zero() {
    let mut shared = BlockedRecordNotifier::new();

    let state = BlockedRecordState::new(&mut shared);
    assert_eq!(shared.records_blocked, 1);

    let wake = state.release(&mut shared);
    assert_eq!(shared.records_blocked, 0);
    assert!(wake);
}

#[test]
fn blocked_record_notifier_does_not_wake_when_others_remain() {
    let mut shared = BlockedRecordNotifier::new();

    let state1 = BlockedRecordState::new(&mut shared);
    let state2 = BlockedRecordState::new(&mut shared);
    assert_eq!(shared.records_blocked, 2);

    let wake = state1.release(&mut shared);
    assert_eq!(shared.records_blocked, 1);
    assert!(!wake);

    let wake = state2.release(&mut shared);
    assert_eq!(shared.records_blocked, 0);
    assert!(wake);
}

#[test]
fn backoff_sequence_produces_expected_delays() {
    let mut backoff = ExponentialBackoff::from_millis(2).factor(5).max_delay(100);

    let expected = [
        Duration::from_millis(10),  // 2 * 5
        Duration::from_millis(20),  // 4 * 5
        Duration::from_millis(40),  // 8 * 5
        Duration::from_millis(80),  // 16 * 5
        Duration::from_millis(100), // 32 * 5 = 160, capped at 100
        Duration::from_millis(100), // stays capped
    ];

    for (i, exp) in expected.iter().enumerate() {
        let actual = Duration::from_millis(backoff.next().unwrap());
        assert_eq!(
            actual, *exp,
            "backoff step {i}: expected {exp:?}, got {actual:?}"
        );
    }
}

#[test]
fn backoff_without_a_limit_stops_at_the_greatest_number() {
    let mut backoff = ExponentialBackoff::from_millis(1 << 40);
    assert_eq!(backoff.next(), Some(1 << 40));
    assert_eq!(backoff.next(), Some(u64::MAX));
    assert_eq!(backoff.next(), Some(u64::MAX));
}

#[test]
fn backoff_factor_may_overflow() {
    let mut backoff = ExponentialBackoff::from_millis(3).factor(u64::MAX);
    assert_eq!(backoff.next(), Some(u64::MAX));
    assert_eq!(backoff.current, 9);
}

#[test]
fn poll_ready_returns_ready_when_unblocked() {
    let service = KafkaService::new();
    assert_eq!(service.shared.records_blocked, 0);
    assert_eq!(service.poll_ready(), Readiness::Ready);
}

#[test]
fn poll_ready_returns_pending_when_blocked() {
    let mut service = KafkaService::new();
    let _state = BlockedRecordState::new(&mut service.shared);
    assert_eq!(service.shared.records_blocked, 1);
    assert_eq!(service.poll_ready(), Readiness::Pending);
}

#[test]
fn the_record_holds_what_the_request_holds() {
    let service = KafkaService::new();
    let (_, record) = service.call(request(b"body", Some(b"key")), (1, 2), (0, 0));
    assert_eq!(record.topic, "topic");
    assert_eq!(&record.payload[..], b"body");
    assert_eq!(record.key.as_deref(), Some(&b"key"[..]));
    assert_eq!(record.timestamp, Some(17));
    assert_eq!(record.headers, Some("headers"));
}

#[test]
fn requests_whose_bytes_can_be_counted_are_taken() {
    let service = KafkaService::new();
    match service.try_call(request(b"body", None), (1, 2), (0, 0)) {
        Ok((_, record)) => assert_eq!(&record.payload[..], b"body"),
        Err(_) => panic!("four bytes can be counted"),
    }
}

#[test]
fn finalizers_are_taken_once() {
    let mut request = request(b"body", None);
    assert_eq!(request.take_finalizers().finalizers, vec![1, 2]);
    assert_eq!(request.take_finalizers().finalizers, Vec::<u8>::new());
    assert_eq!(*request.get_metadata(), 9);
    *request.metadata_mut() = 10;
    assert_eq!(*request.get_metadata(), 10);
}

#[test]
fn an_enqueued_record_is_answered_by_its_delivery() {
    let mut service = KafkaService::new();
    let mut rng = SmallRng::seed_from_u64(1);
    let call = started(&service);
    let (step, wake) = call.sent(&mut service, &mut rng, SendOutcome::<&str>::Enqueued);
    assert!(!wake);
    let delivery = match step {
        CallStep::Await(delivery) => delivery,
        _ => panic!("the record was enqueued"),
    };
    let response = match delivery.answer::<&str>(Ok(())) {
        Ok(response) => response,
        Err(_) => panic!("the record was delivered"),
    };
    assert_eq!(response.event_status(), EventStatus::Delivered);
    assert_eq!(*response.events_sent(), (3, 40));
    // Four bytes of body and three of key.
    assert_eq!(response.bytes_sent(), Some(7));
}

#[test]
fn a_lost_delivery_is_an_error() {
    let mut service = KafkaService::new();
    let mut rng = SmallRng::seed_from_u64(1);
    let call = started(&service);
    match call.sent(&mut service, &mut rng, SendOutcome::<&str>::Enqueued).0 {
        CallStep::Await(delivery) => assert_eq!(delivery.answer(Err("lost")).err(), Some("lost")),
        _ => panic!("the record was enqueued"),
    }
}

#[test]
fn a_full_queue_blocks_the_service_until_the_record_is_enqueued() {
    let mut service = KafkaService::new();
    let mut rng = SmallRng::seed_from_u64(7);
    let mut call = started(&service);
    for base in [10, 20, 40, 80, 100, 100] {
        let (step, wake) = call.sent(&mut service, &mut rng, refused(ProduceErrorCode::QueueFull));
        assert!(!wake);
        assert_eq!(service.shared.records_blocked, 1);
        assert_eq!(service.poll_ready(), Readiness::Pending);
        call = match step {
            CallStep::Retry { call, sleep_millis } => {
                assert!(base < sleep_millis && sleep_millis <= base + base / 5 + 1);
                call
            }
            _ => panic!("the record is offered again"),
        };
    }
    let (step, wake) = call.sent(&mut service, &mut rng, SendOutcome::<&str>::Enqueued);
    assert!(wake);
    assert!(matches!(step, CallStep::Await(_)));
    assert_eq!(service.poll_ready(), Readiness::Ready);
}

#[test]
fn jitter_takes_more_than_one_value() {
    let mut service = KafkaService::new();
    let mut rng = SmallRng::seed_from_u64(3);
    let mut seen = Vec::new();
    for _ in 0..64 {
        let call = started(&service);
        let (step, _) =
            call.sent(&mut service, &mut rng, refused(ProduceErrorCode::PolicyViolation));
        match step {
            CallStep::Retry { sleep_millis, .. } => seen.push(sleep_millis),
            _ => panic!("the record is offered again"),
        }
    }
    seen.sort();
    seen.dedup();
    assert_eq!(seen, vec![11, 12, 13]);
}

#[test]
fn a_second_blocked_record_keeps_the_service_pending() {
    let mut service = KafkaService::new();
    let mut rng = SmallRng::seed_from_u64(7);
    let first = started(&service);
    let second = started(&service);
    let first = match first.sent(&mut service, &mut rng, refused(ProduceErrorCode::QueueFull)).0 {
        CallStep::Retry { call, .. } => call,
        _ => panic!("the record is offered again"),
    };
    let second = match second.sent(&mut service, &mut rng, refused(ProduceErrorCode::QueueFull)).0 {
        CallStep::Retry { call, .. } => call,
        _ => panic!("the record is offered again"),
    };
    assert_eq!(service.shared.records_blocked, 2);
    let (_, wake) = first.sent(&mut service, &mut rng, SendOutcome::<&str>::Enqueued);
    assert!(!wake);
    assert_eq!(service.poll_ready(), Readiness::Pending);
    let (_, wake) = second.sent(&mut service, &mut rng, refused(ProduceErrorCode::InvalidRecord));
    assert!(wake);
    assert_eq!(service.poll_ready(), Readiness::Ready);
}

#[test]
fn a_request_that_is_given_up_blocks_the_service_no_longer() {
    let mut service = KafkaService::new();
    let mut rng = SmallRng::seed_from_u64(5);
    let fresh = started(&service);
    assert!(!fresh.give_up(&mut service));
    assert_eq!(service.shared.records_blocked, 0);

    let mut waiting = Vec::new();
    for _ in 0..2 {
        let call = started(&service);
        let full = refused(ProduceErrorCode::QueueFull);
        match call.sent(&mut service, &mut rng, full) {
            (CallStep::Retry { call, .. }, false) => waiting.push(call),
            _ => panic!("the record is offered again"),
        }
    }
    assert_eq!(service.shared.records_blocked, 2);
    assert!(!waiting.remove(0).give_up(&mut service));
    assert_eq!(service.shared.records_blocked, 1);
    assert_eq!(service.poll_ready(), Readiness::Pending);
    assert!(waiting.remove(0).give_up(&mut service));
    assert_eq!(service.shared.records_blocked, 0);
    assert_eq!(service.poll_ready(), Readiness::Ready);
}

#[test]
fn final_errors_are_handed_on() {
    let codes = [
        ProduceErrorCode::InvalidMessage,
        ProduceErrorCode::InvalidMessageSize,
        ProduceErrorCode::MessageSizeTooLarge,
        ProduceErrorCode::UnknownTopicOrPartition,
        ProduceErrorCode::InvalidRecord,
        ProduceErrorCode::InvalidRequiredAcks,
        ProduceErrorCode::TopicAuthorizationFailed,
        ProduceErrorCode::UnsupportedForMessageFormat,
        ProduceErrorCode::ClusterAuthorizationFailed,
    ];
    for code in codes {
        assert_eq!(classify_refusal(Some(code)), Refusal::Final);
        let mut service = KafkaService::new();
        let mut rng = SmallRng::seed_from_u64(1);
        let call = started(&service);
        match call.sent(&mut service, &mut rng, refused(code)).0 {
            CallStep::Answer(answer) => assert_eq!(answer.err(), Some("refused")),
            _ => panic!("the record is given up"),
        }
    }
}

#[test]
fn other_errors_mark_the_events_as_errored() {
    for code in [None, Some(ProduceErrorCode::Other)] {
        assert_eq!(classify_refusal(code), Refusal::Errored);
        let mut service = KafkaService::new();
        let mut rng = SmallRng::seed_from_u64(1);
        let call = started(&service);
        let outcome = SendOutcome::Refused { code, error: "refused" };
        match call.sent(&mut service, &mut rng, outcome).0 {
            CallStep::Answer(Ok(response)) => {
                assert_eq!(response.event_status(), EventStatus::Errored);
                assert_eq!(*response.events_sent(), (0, 0));
                assert_eq!(response.bytes_sent(), Some(0));
            }
            _ => panic!("the events are marked"),
        }
    }
}

#[test]
fn a_delay_with_its_jitter() {
    assert_eq!(jittered(10, 3), 13);
}
