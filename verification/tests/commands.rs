use kube_node_dns::command::{plan, Command, Task};
use kube_node_dns::error::Error;
use kube_node_dns::interval::{
    interval_or_error, parse_interval, repeat_action, repeat_interval, Interval, RepeatAction, RepeatEvent,
};

fn interval(text: &str) -> Interval {
    repeat_interval(text).unwrap().ok().unwrap()
}

#[test]
fn intervals_are_read() {
    assert_eq!(interval("5m"), Interval { seconds: 300, nanoseconds: 0 });
    assert_eq!(interval("1h 30min"), Interval { seconds: 5400, nanoseconds: 0 });
    assert_eq!(interval("32ms"), Interval { seconds: 0, nanoseconds: 32_000_000 });
    assert_eq!(interval("4.2s"), Interval { seconds: 4, nanoseconds: 200_000_000 });
    assert_eq!(interval("0"), Interval { seconds: 0, nanoseconds: 0 });
    assert_eq!(interval("0000000000000005m"), Interval { seconds: 300, nanoseconds: 0 });
    assert_eq!(interval("584542046089y").nanoseconds, 0);
    assert_eq!(parse_interval("2days").ok(), Some(Interval { seconds: 172_800, nanoseconds: 0 }));
}

#[test]
fn bad_intervals_are_reported() {
    for text in ["", "5", "m", "5 parsecs", "-1s"] {
        match repeat_interval(text) {
            Some(Err(error)) => {
                assert_eq!(error.message(), format!("invalid value for repeat: {text:?}"));
                assert!(matches!(
                    error,
                    Error::InvalidRepeat { every, cause }
                        if every == text && cause == humantime::parse_duration(text).unwrap_err()
                ));
            }
            _ => panic!("{text:?} was taken for an interval"),
        }
    }
}

#[test]
fn sums_of_exactly_the_limit_are_left_alone() {
    for text in [
        "18446744073709551615s 1000ms",
        "18446744073709551615s 1000000us",
        "18446744073709551615s1000000\u{b5}s",
        "18446744073709551615s 1000000000ns 1x",
        "18446744073709551615s 400ms 600ms",
        "18446744073709551615s 1000ms ?",
        "18446744073709551614s 500ms 1.5s",
        "18446744073709551615s 1000.5ms",
        "18446744073709551615s 1000.5 0ms",
        "18446744073709551615s 1000000.\t0000000000000000000us",
        "18446744056709551615s 999500us 17000000000000.5ms",
        "18446744073709551615s 1000.0000000000000000001ms",
        "18446744073709551615s 1000000000.5ns",
    ] {
        assert!(repeat_interval(text).is_none(), "{text:?}");
    }
}

fn assert_reads_like_humantime(text: &str) {
    match (repeat_interval(text), humantime::parse_duration(text)) {
        (Some(Ok(i)), Ok(d)) => {
            assert_eq!((i.seconds, i.nanoseconds), (d.as_secs(), d.subsec_nanos()), "{text:?}")
        }
        (Some(Err(Error::InvalidRepeat { every, cause })), Err(e)) => {
            assert_eq!((every.as_str(), cause), (text, e), "{text:?}")
        }
        _ => panic!("{text:?} is not read like humantime does"),
    }
}

#[test]
fn sums_near_the_limit_are_read() {
    for text in [
        "600000000000ns 1s",
        "600000000000s 1x",
        "1000000000000ms 1ns",
        "18446744073709551615s 999ms",
        "18446744073709551615s 999999999ns",
        "18446744073709551615s 1s",
        "18446744073709551615s 1 sec",
        "18446744073709551615s 1x",
        "18446744073709551615s 1001ms",
        "18446744073709551614s 2000ms",
        "18446744073709551555s 1m",
        "18446744073709551556s 1m",
        "18446744073709551615s 0.5s",
        "18446744073709551615s 1.5s",
        "18446744073709551615s 1000.5x",
        "18446744073709551615s 999.5x",
        "18446744073709551615s 1000.ms",
        "18446744073709551615s 1000.0.0ms",
        "18446744073709551615s 1000.5?5ms",
        "18446744073709551615s 1000.5\u{b5}5ms",
        "18446744073709551615s 1000.00000000000000000000ms",
        "18446744055262807542s 290500us 18446744073709.5ms",
        "18446744073709551615s 1000ms?",
        "18446744073709551615s 1000000000ns.5s",
        "18446744073709551615s 1000ms\u{b5}s 1s",
        "18446744073709551615s 1.0s",
        "18446744073709551615s 1\ts",
        "18446744073709551607s 0.0025h",
        "18446744073709551615s 999.9999ms",
        "18446744073709551614s 1.5s",
        "18446744073709551615s 1 000 000 000 000ms",
        "1x 18446744073709551615s 1000ms",
        "18446744073709551615s ? 1000ms",
        "18446744073709551616s 1000ms",
        "99999999999999999999y 1h",
        "584542046090y 1s 5",
    ] {
        assert_reads_like_humantime(text);
    }
}

#[test]
fn mixtures_are_read_like_humantime_does() {
    let pieces = [
        "18446744073709551615", "18446744073709551614", "18446744073709551555", "1", "0", "5", "500", "1000",
        "1000000000", "999999999", ".", ".5", ".25", " ", " ", " ", "s", "ms", "m", "ns", "us", "\u{b5}s", "h", "y",
        "sec", "x", "?",
    ];
    let mut seed: u64 = 2024;
    let mut next = |bound: u64| {
        seed = seed.wrapping_mul(6364136223846793005).wrapping_add(1442695040888963407);
        (seed >> 33) % bound
    };
    let mut left_alone = 0;
    for round in 0..200_000 {
        let length = next(9);
        let mut text = String::new();
        if round % 2 == 0 {
            text.push_str("18446744073709551615s ");
        }
        for _ in 0..length {
            text.push_str(pieces[next(27) as usize]);
        }
        if repeat_interval(&text).is_none() {
            left_alone += 1;
        } else {
            assert_reads_like_humantime(&text);
        }
    }
    assert!(left_alone < 200, "{left_alone} texts were left alone");
}

#[test]
fn single_numbers_may_be_large() {
    assert_eq!(interval("600000000000ns"), Interval { seconds: 600, nanoseconds: 0 });
    assert_eq!(interval("18446744073709551615s"), Interval { seconds: u64::MAX, nanoseconds: 0 });
    assert_eq!(interval("18446744073709551615ns"), Interval { seconds: 18446744073, nanoseconds: 709551615 });
    assert_eq!(interval("1 000 000 000 000 s"), Interval { seconds: 1_000_000_000_000, nanoseconds: 0 });
    assert_eq!(
        interval("1h 30min 15s 500ms 250us 100ns"),
        Interval { seconds: 5415, nanoseconds: 500_250_100 },
    );
    assert!(matches!(
        repeat_interval("18446744073709551616s"),
        Some(Err(Error::InvalidRepeat { cause: humantime::DurationError::NumberOverflow, .. }))
    ));
}

#[test]
fn what_humantime_says_is_passed_on() {
    let five = Interval { seconds: 5, nanoseconds: 0 };
    assert_eq!(interval_or_error("x", Ok(five)).ok(), Some(five));
    assert!(matches!(
        interval_or_error("x", Err(humantime::DurationError::Empty)),
        Err(Error::InvalidRepeat { every, cause: humantime::DurationError::Empty }) if every == "x"
    ));
}

#[test]
fn commands_become_tasks() {
    assert!(matches!(plan(Command::ListIps), Some(Ok(Task::ListIps))));
    assert!(matches!(plan(Command::Once), Some(Ok(Task::UpdateOnce))));
    assert!(matches!(
        plan(Command::Repeat { every: "5m".to_string() }),
        Some(Ok(Task::UpdateRepeatedly { every: Interval { seconds: 300, nanoseconds: 0 } }))
    ));
    assert!(matches!(
        plan(Command::Repeat { every: "soon".to_string() }),
        Some(Err(Error::InvalidRepeat { .. }))
    ));
    assert!(plan(Command::Repeat { every: "18446744073709551615s 1000ms".to_string() }).is_none());
    match plan(Command::PublishDns {
        domains: vec!["example.com".to_string()],
        node_label_selector: Some("a=b".to_string()),
    }) {
        Some(Ok(Task::PublishDns { domains, node_label_selector })) => {
            assert_eq!(domains, vec!["example.com".to_string()]);
            assert_eq!(node_label_selector.as_deref(), Some("a=b"));
        }
        _ => panic!("no task to publish"),
    }
}

#[test]
fn repeated_updates() {
    assert_eq!(repeat_action(RepeatEvent::IntervalElapsed), RepeatAction::Update);
    assert_eq!(repeat_action(RepeatEvent::Updated), RepeatAction::Wait);
    assert_eq!(repeat_action(RepeatEvent::UpdateFailed), RepeatAction::Fail);
    assert_eq!(repeat_action(RepeatEvent::Shutdown), RepeatAction::Stop);
    assert_eq!(repeat_action(RepeatEvent::ShutdownFailed), RepeatAction::Fail);
}
