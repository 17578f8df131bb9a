use rhytm::msg::{LogLevel, Message, MsgTag};
use rhytm::queue::BatchQueue;
use rhytm::session::{Session, SessionEffect, SessionState};

fn jobs(n: usize) -> Vec<String> {
    (1..=n).map(|i| format!("v{}", i)).collect()
}

fn handshaken(id: usize, queue: &mut BatchQueue) -> Session {
    let mut s = Session::new();
    let effect = s.on_message(Message::Greeting(id), queue).expect("handshake");
    assert_eq!(effect, SessionEffect::Reply(Message::Greeting(id)));
    s
}

#[test]
fn handshake_echoes_the_worker_identity() {
    let mut q = BatchQueue::new(jobs(1), 5);
    let mut s = Session::new();
    let effect = s.on_message(Message::Greeting(42), &mut q).expect("greeting is accepted");
    assert_eq!(effect, SessionEffect::Reply(Message::Greeting(42)));
    assert_eq!(s.state, SessionState::Ready);
    assert_eq!(s.worker_id, Some(42));
}

#[test]
fn non_greeting_first_message_fails_the_session_with_no_reply() {
    let mut q = BatchQueue::new(jobs(3), 5);
    let mut s = Session::new();
    let err = s.on_message(Message::BatchRequest, &mut q).expect_err("protocol error");
    assert_eq!(err.received, MsgTag::BatchRequest);
    assert_eq!(err.state, SessionState::AwaitingGreeting);
    assert_eq!(err.worker_id, None);
    assert_eq!(s.state, SessionState::Failed);
    // the queue was not touched
    assert_eq!(q.cursor, 0);
}

#[test]
fn scenario_single_worker_drains_twelve_jobs_in_batches_of_five() {
    let all = jobs(12);
    let mut q = BatchQueue::new(all.clone(), 5);
    let mut s = handshaken(0, &mut q);

    let r1 = s.on_message(Message::BatchRequest, &mut q).unwrap();
    assert_eq!(r1, SessionEffect::Reply(Message::Batch(all[0..5].to_vec())));
    let r2 = s.on_message(Message::BatchRequest, &mut q).unwrap();
    assert_eq!(r2, SessionEffect::Reply(Message::Batch(all[5..10].to_vec())));
    let r3 = s.on_message(Message::BatchRequest, &mut q).unwrap();
    assert_eq!(r3, SessionEffect::Reply(Message::Batch(all[10..12].to_vec())));
    let r4 = s.on_message(Message::BatchRequest, &mut q).unwrap();
    assert_eq!(r4, SessionEffect::Reply(Message::EndRequest));
    assert_eq!(s.state, SessionState::Done);
}

#[test]
fn scenario_two_workers_share_ten_jobs_without_overlap() {
    let all = jobs(10);
    let mut q = BatchQueue::new(all.clone(), 5);
    let mut s1 = handshaken(1, &mut q);
    let mut s2 = handshaken(2, &mut q);

    let r1 = s1.on_message(Message::BatchRequest, &mut q).unwrap();
    let r2 = s2.on_message(Message::BatchRequest, &mut q).unwrap();
    assert_eq!(r1, SessionEffect::Reply(Message::Batch(all[0..5].to_vec())));
    assert_eq!(r2, SessionEffect::Reply(Message::Batch(all[5..10].to_vec())));

    let r3 = s1.on_message(Message::BatchRequest, &mut q).unwrap();
    assert_eq!(r3, SessionEffect::Reply(Message::EndRequest));
    assert_eq!(s1.state, SessionState::Done);
    assert_eq!(s2.state, SessionState::Serving);
}

#[test]
fn log_messages_are_forwarded_with_their_fields() {
    let mut q = BatchQueue::new(jobs(1), 5);
    let mut s = handshaken(3, &mut q);
    let effect = s
        .on_message(
            Message::Log {
                thr_id: 3,
                level: LogLevel::Debug,
                target: "Thread".to_string(),
                msg: "Sending JSON!".to_string(),
            },
            &mut q,
        )
        .unwrap();
    assert_eq!(
        effect,
        SessionEffect::ForwardLog {
            thr_id: 3,
            level: LogLevel::Debug,
            target: "Thread".to_string(),
            msg: "Sending JSON!".to_string(),
        }
    );
    assert_eq!(q.cursor, 0);
}

#[test]
fn status_payloads_are_forwarded_to_the_sink() {
    let mut q = BatchQueue::new(jobs(1), 5);
    let mut s = handshaken(0, &mut q);
    let effect = s.on_message(Message::JSON("{}".to_string()), &mut q).unwrap();
    assert_eq!(effect, SessionEffect::ForwardStatus("{}".to_string()));
}

#[test]
fn download_hints_are_passed_on() {
    let mut q = BatchQueue::new(jobs(1), 5);
    let mut s = handshaken(0, &mut q);
    assert_eq!(s.on_message(Message::DownloadStart, &mut q).unwrap(), SessionEffect::DownloadStarted);
    assert_eq!(s.on_message(Message::DownloadEnd, &mut q).unwrap(), SessionEffect::DownloadEnded);
}

#[test]
fn master_side_messages_during_serving_fail_the_session() {
    for bad in [
        Message::Greeting(9),
        Message::Batch(vec!["v1".to_string()]),
        Message::EndRequest,
    ] {
        let mut q = BatchQueue::new(jobs(2), 5);
        let mut s = handshaken(9, &mut q);
        let tag = match bad {
            Message::Greeting(..) => MsgTag::Greeting,
            Message::Batch(..) => MsgTag::Batch,
            _ => MsgTag::EndRequest,
        };
        let err = s.on_message(bad, &mut q).expect_err("role mismatch");
        assert_eq!(err.received, tag);
        assert_eq!(err.worker_id, Some(9));
        assert_eq!(s.state, SessionState::Failed);
        assert_eq!(q.cursor, 0);
    }
}

#[test]
fn a_failed_session_does_not_abort_the_others() {
    let all = jobs(4);
    let mut q = BatchQueue::new(all.clone(), 2);
    let mut bad = Session::new();
    let mut good = handshaken(1, &mut q);
    assert!(bad.on_message(Message::EndRequest, &mut q).is_err());
    // the surviving session still drains the whole queue
    let r1 = good.on_message(Message::BatchRequest, &mut q).unwrap();
    assert_eq!(r1, SessionEffect::Reply(Message::Batch(all[0..2].to_vec())));
    let r2 = good.on_message(Message::BatchRequest, &mut q).unwrap();
    assert_eq!(r2, SessionEffect::Reply(Message::Batch(all[2..4].to_vec())));
    let r3 = good.on_message(Message::BatchRequest, &mut q).unwrap();
    assert_eq!(r3, SessionEffect::Reply(Message::EndRequest));
}
