use mgen::alias::{
    parse_i32_fields, parse_u32_fields, parse_weights_i32, parse_weights_u32, sample_weighted, value_at,
    WeightedError, WeightsFile,
};
use rand_xoshiro::rand_core::SeedableRng;
use rand_xoshiro::Xoshiro256PlusPlus;
use mgen::sam::extract::{group_size_histogram, merge_user_stats};
use mgen::sam::lens::{bytes_to_blocks, lengths_by_user, message_blocks};
use mgen::sam::process::{
    active_iits, determine_state, different_run, distinct_hashes, idle_iits, is_transition, parse_stats_file,
    receive_transition_count, received_sent_iits, send_transition_counts, sent_sent_iits,
    stats_to_labeled, user_dists, Direction, LabeledMessage, Probability, State,
};
use mgen::{
    create_weighted, format_list, process_conversation, write_weighted_text, Conversation,
    DataRun, Message, UserStats,
};

const MINUTE: i128 = 60_000_000_000;
const T0: i128 = 1_600_000_000_000_000_000;

fn msg(minute: i128, user: i32) -> Message {
    Message { date: T0 + minute * MINUTE, user, char_count: 10, emoji_count: 0 }
}

fn sample_conversation() -> Conversation {
    Conversation {
        hash: 77,
        date_last_message: T0 + 2 * MINUTE,
        user_count: 2,
        messages: vec![msg(0, 1), msg(1, 2), msg(2, 1)],
    }
}

#[test]
fn format_lists() {
    assert_eq!(format_list(&[1u32, 22, 333]), "1,22,333\n");
    assert_eq!(format_list::<i32>(&[]), "\n");
    assert_eq!(format_list(&[-5i64, 0, 7]), "-5,0,7\n");
    assert_eq!(format_list(&[u16::MAX]), "65535\n");
}

#[test]
fn weighted_counts() {
    let (counts, items) = create_weighted(&[3, 1, 3, 2, 3]);
    assert_eq!(counts, vec![1, 1, 3]);
    assert_eq!(items, vec![1, 2, 3]);
    assert_eq!(counts.iter().sum::<usize>(), 5);
    assert_eq!(write_weighted_text(&[5, 5, -1]), "1,2\n-1,5\n");
    assert_eq!(write_weighted_text(&[]), "\n\n");
}

#[test]
fn weights_files() {
    match parse_weights_u32(b"3,1\n10,20\n") {
        WeightsFile::Distribution(d, values) => {
            assert_eq!(values, vec![10, 20]);
            let mut rng = Xoshiro256PlusPlus::seed_from_u64(7);
            for _ in 0..50 {
                let v = sample_weighted(&d, &values, &mut rng).unwrap();
                assert!(v == 10 || v == 20);
            }
            assert_eq!(sample_weighted(&d, &[1u8; 0], &mut rng), None);
        }
        _ => panic!("expected a distribution"),
    }
    match parse_weights_i32(b"0,5\r\n-7,+8") {
        WeightsFile::Distribution(d, values) => {
            assert_eq!(values, vec![-7, 8]);
            let mut rng = Xoshiro256PlusPlus::seed_from_u64(9);
            for _ in 0..50 {
                assert_eq!(sample_weighted(&d, &values, &mut rng), Some(8));
            }
        }
        _ => panic!("expected a distribution"),
    }
    assert!(matches!(parse_weights_u32(b""), WeightsFile::NoWeightsLine));
    assert!(matches!(parse_weights_u32(b"1,x\n1,2\n"), WeightsFile::BadWeights));
    assert!(matches!(parse_weights_u32(b"1,2\n"), WeightsFile::NoValuesLine));
    assert!(matches!(parse_weights_u32(b"1,2\n3,-4\n"), WeightsFile::BadValues));
    assert!(matches!(parse_weights_u32(b"1,2\n3\n"), WeightsFile::LengthMismatch));
    assert!(matches!(
        parse_weights_u32(b"0,0\n1,2\n"),
        WeightsFile::Weighted(WeightedError::AllWeightsZero)
    ));
    assert!(matches!(
        parse_weights_u32(b"4294967295,1\n1,2\n"),
        WeightsFile::Weighted(WeightedError::InvalidWeight)
    ));
    assert_eq!(parse_u32_fields(b"1,2,3"), Some(vec![1, 2, 3]));
    assert_eq!(parse_u32_fields(b"1,,3"), None);
    assert_eq!(parse_i32_fields(b"-2147483648,2147483647"), Some(vec![i32::MIN, i32::MAX]));
    assert_eq!(parse_i32_fields(b"2147483648"), None);
}

#[test]
fn values_by_index() {
    assert_eq!(value_at(&[4, 5, 6], 1), Some(5));
    assert_eq!(value_at(&[4, 5, 6], 3), None);
}

#[test]
fn written_weights_read_back() {
    let text = write_weighted_text(&[4, -2, 4, 4]);
    match parse_weights_i32(text.as_bytes()) {
        WeightsFile::Distribution(_, values) => assert_eq!(values, vec![-2, 4]),
        _ => panic!("expected a distribution"),
    }
}

#[test]
fn written_weights_read_back_as_u32() {
    let text = write_weighted_text(&[7, 3, 7]);
    assert_eq!(text, "1,2\n3,7\n");
    match parse_weights_u32(text.as_bytes()) {
        WeightsFile::Distribution(_, values) => assert_eq!(values, vec![3, 7]),
        _ => panic!("expected a distribution"),
    }
}

#[test]
fn written_stats_read_back() {
    let stats = UserStats {
        user: 9,
        data_runs: vec![
            DataRun { conversation_id: -3, first_message: 2, minute_counters: vec![0, 4, 1] },
            DataRun { conversation_id: 11, first_message: 0, minute_counters: vec![5] },
        ],
    };
    let mut file = stats.counters_file().into_bytes();
    file.extend_from_slice(b"0,1,1,0\n");
    let read = parse_stats_file(9, &file).unwrap();
    assert_eq!(read.user_stats, stats);
    assert_eq!(read.states, vec![State::Idle, State::Active, State::Active, State::Idle]);
    let mut open = stats.counters_file().into_bytes();
    open.extend_from_slice(b"1,0");
    let read = parse_stats_file(9, &open).unwrap();
    assert_eq!(read.user_stats, stats);
    assert_eq!(read.states, vec![State::Active, State::Idle]);
}

#[test]
fn conversation_histograms() {
    let mut stats = process_conversation(sample_conversation());
    stats.sort_by_key(|s| s.user);
    assert_eq!(stats.len(), 2);
    let mut expected = vec![0u16; 63];
    expected[60] = 1;
    expected[62] = 1;
    assert_eq!(
        stats[0],
        UserStats {
            user: 1,
            data_runs: vec![DataRun { conversation_id: 77, first_message: 0, minute_counters: expected }],
        }
    );
    let mut expected = vec![0u16; 62];
    expected[60] = 1;
    assert_eq!(stats[1].data_runs, vec![DataRun { conversation_id: 77, first_message: 1, minute_counters: expected }]);
    let text = stats[1].counters_file();
    let mut counters = vec!["0"; 62];
    counters[60] = "1";
    assert_eq!(text, format!("{}\n62\n77\n1\n", counters.join(",")));
}

#[test]
fn every_message_counted() {
    let c = Conversation {
        hash: 3,
        date_last_message: T0 + 400 * MINUTE,
        user_count: 2,
        messages: vec![msg(0, 1), msg(0, 1), msg(1, 2), msg(250, 1), msg(251, 2), msg(400, 1)],
    };
    let stats = process_conversation(c.clone());
    for s in stats.iter() {
        let total: u32 = s
            .data_runs
            .iter()
            .map(|r| r.minute_counters.iter().map(|x| *x as u32).sum::<u32>())
            .sum();
        let sent = c.messages.iter().filter(|m| m.user == s.user).count() as u32;
        assert_eq!(total, sent);
    }
    assert_eq!(stats.len(), 2);
}

#[test]
fn gaps_over_two_hours_start_new_runs() {
    let c = Conversation {
        hash: 9,
        date_last_message: T0 + 121 * MINUTE,
        user_count: 1,
        messages: vec![msg(0, 1), msg(121, 1)],
    };
    let stats = process_conversation(c);
    let mut first = vec![0u16; 121];
    first[60] = 1;
    let mut second = vec![0u16; 61];
    second[60] = 1;
    assert_eq!(
        stats[0].data_runs,
        vec![
            DataRun { conversation_id: 9, first_message: 0, minute_counters: first },
            DataRun { conversation_id: 9, first_message: 1, minute_counters: second },
        ]
    );
    let c = Conversation {
        hash: 9,
        date_last_message: T0 + 120 * MINUTE,
        user_count: 1,
        messages: vec![msg(0, 1), msg(120, 1)],
    };
    assert_eq!(process_conversation(c)[0].data_runs.len(), 1);
}

#[test]
fn long_silences_start_new_runs() {
    let c = Conversation {
        hash: 5,
        date_last_message: T0 + 500 * MINUTE,
        user_count: 1,
        messages: vec![msg(0, 1), msg(300, 1)],
    };
    let stats = process_conversation(c);
    assert_eq!(stats.len(), 1);
    let runs = &stats[0].data_runs;
    assert_eq!(runs.len(), 2);
    assert_eq!(runs[0].minute_counters.len(), 121);
    assert_eq!(runs[0].minute_counters[60], 1);
    assert_eq!(runs[1].first_message, 1);
    assert_eq!(runs[1].minute_counters.len(), 121);
    assert_eq!(runs[1].minute_counters[60], 1);
}

#[test]
fn message_states() {
    let (a, i) = (State::Active, State::Idle);
    assert_eq!(determine_state(&[1, 0, 1], &[a, i, a], 1), i);
    assert_eq!(determine_state(&[1, 2, 1], &[a, a, a], 1), a);
    assert_eq!(determine_state(&[1, 0, 1], &[a, a, a], 2), a);
    assert_eq!(determine_state(&[1, 1], &[a, a], 1), a);
    assert_eq!(determine_state(&[1, 0, 1], &[a, i, a], 2), i);
    assert_eq!(determine_state(&[0, 1, 1], &[i, a, a], 1), a);
    assert_eq!(determine_state(&[1, 0, 1], &[a, a, a], 0), a);
    assert_eq!(determine_state(&[0, 1, 0], &[i, a, a], 1), i);
    assert_eq!(determine_state(&[0, 1, 0, 1], &[a, a, i, a], 1), i);
    assert!(different_run(&[a, i, a], 0, 2));
    assert!(!different_run(&[a, i, a], 2, 3));
    assert!(!different_run(&[a, a], 1, 1));
    assert!(is_transition(&[i, a], 0, 0));
    assert!(is_transition(&[a, a], 1, -1));
    assert!(!is_transition(&[a, a], 1, 0));
    assert!(is_transition(&[i, a], 1, 0));
}

#[test]
fn stats_files() {
    let s = parse_stats_file(4, b"0,1,0,2\n2,2\n7,8,9\n0,5\n0,1,1\n").unwrap();
    assert_eq!(s.user_stats.user, 4);
    assert_eq!(s.states, vec![State::Idle, State::Active, State::Active]);
    assert_eq!(
        s.user_stats.data_runs,
        vec![
            DataRun { conversation_id: 7, first_message: 0, minute_counters: vec![0, 1] },
            DataRun { conversation_id: 8, first_message: 5, minute_counters: vec![0, 2] },
        ]
    );
    assert!(parse_stats_file(4, b"0,1\n3\n7\n0\n0\n").is_none());
    assert!(parse_stats_file(4, b"0,1\n1\n7\n0\n").is_none());
    assert!(parse_stats_file(4, b"0,x\n1\n7\n0\n0\n").is_none());
    assert!(parse_stats_file(4, b"0,1\n1,1\n7\n0,0\n0\n").is_none());
}

fn labeled(idle_sent: bool, continuing: bool, last: Direction, iit_s: i128, sent_s: Option<i128>, state: State) -> LabeledMessage {
    LabeledMessage {
        state,
        continuing,
        last_message: last,
        idle_sent,
        iit: iit_s * 1_000_000_000,
        sent_iit: sent_s.map(|t| t * 1_000_000_000),
    }
}

#[test]
fn timings_from_labels() {
    let (r, snt) = (Direction::Received, Direction::Sent);
    let ms = vec![
        labeled(true, false, r, 30, Some(100), State::Active),
        labeled(false, true, snt, 5, Some(5), State::Active),
        labeled(false, true, r, 9, Some(9), State::Active),
        labeled(false, false, r, 2, Some(20), State::Active),
        labeled(true, false, snt, 7, None, State::Idle),
        labeled(false, true, snt, 4, Some(4), State::Active),
    ];
    assert_eq!(idle_iits(&ms), vec![100]);
    assert_eq!(active_iits(&ms), vec![9, 4]);
    assert_eq!(sent_sent_iits(&ms), vec![5, 4]);
    assert_eq!(received_sent_iits(&ms), vec![9, 2]);
    assert_eq!(send_transition_counts(&ms), (1, 2));
    assert_eq!(receive_transition_count(&ms), 1);
    let d = user_dists(&ms, 4);
    assert_eq!(d.idle, vec![100]);
    assert_eq!(d.active, vec![9, 4]);
    assert_eq!(d.s, Probability::Ratio(1, 2));
    assert_eq!(d.r, Probability::Ratio(1, 4));
    assert!(d.real_data);
    let d = user_dists(&[], 0);
    assert_eq!(d.idle, vec![3600]);
    assert_eq!(d.active, vec![0]);
    assert_eq!(d.a_s, vec![3600]);
    assert_eq!(d.a_r, vec![3600]);
    assert_eq!(d.s, Probability::Zero);
    assert_eq!(d.r, Probability::One);
    assert!(!d.real_data);
    let open = vec![
        labeled(false, true, snt, 5, Some(5), State::Active),
        labeled(false, true, snt, 10, Some(10), State::Active),
    ];
    assert_eq!(active_iits(&open), vec![10]);
    let tiny = LabeledMessage { sent_iit: Some(-1), ..labeled(true, false, r, 0, None, State::Idle) };
    assert_eq!(idle_iits(&[tiny]), vec![0]);
}

#[test]
fn labelling_a_conversation() {
    let c = sample_conversation();
    let mut user_stats = process_conversation(c.clone());
    user_stats.sort_by_key(|s| s.user);
    let mut text = user_stats[0].counters_file();
    let states = vec!["1"; 63].join(",");
    text.push_str(&states);
    text.push('\n');
    let stats = parse_stats_file(1, text.as_bytes()).unwrap();
    let (labels, received) = stats_to_labeled(&stats, &[&c]).unwrap();
    assert_eq!(received, 0);
    assert_eq!(
        labels,
        vec![LabeledMessage {
            state: State::Active,
            continuing: false,
            last_message: Direction::Received,
            idle_sent: false,
            iit: MINUTE,
            sent_iit: None,
        }]
    );
    let d = user_dists(&labels, received);
    assert_eq!(d.a_r, vec![60]);
    assert!(d.real_data);
    // a stats file naming a conversation that is not there
    let other = Conversation { hash: 1, ..c.clone() };
    assert!(stats_to_labeled(&stats, &[&other]).is_none());
}

#[test]
fn message_lengths() {
    assert_eq!(bytes_to_blocks(0), 1);
    assert_eq!(bytes_to_blocks(112), 1);
    assert_eq!(bytes_to_blocks(113), 2);
    assert_eq!(bytes_to_blocks(272), 3);
    assert_eq!(bytes_to_blocks(-5), 1);
    assert_eq!(message_blocks(100, 10, 0), 2);
    assert_eq!(message_blocks(10, 0, 1000), 7);
    let grouped = lengths_by_user(&[1, 2, 1, 3], &[5, 6, 7, 8]);
    assert_eq!(grouped, vec![(1, vec![5, 7]), (2, vec![6]), (3, vec![8])]);
}

#[test]
fn merging_and_histograms() {
    let run = |c: i32| DataRun { conversation_id: c, first_message: 0, minute_counters: vec![0; 60] };
    let merged = merge_user_stats(vec![
        UserStats { user: 1, data_runs: vec![run(1)] },
        UserStats { user: 2, data_runs: vec![run(2)] },
        UserStats { user: 1, data_runs: vec![run(3), run(4)] },
    ]);
    assert_eq!(merged.len(), 2);
    assert_eq!(merged[0].user, 1);
    assert_eq!(merged[0].data_runs, vec![run(1), run(3), run(4)]);
    assert_eq!(merged[1].data_runs, vec![run(2)]);
    let hist = group_size_histogram(&[2, 3, 2, 255]);
    assert_eq!(hist.len(), 256);
    assert_eq!(hist[2], 2);
    assert_eq!(hist[3], 1);
    assert_eq!(hist[255], 1);
    assert_eq!(hist.iter().sum::<i32>(), 4);
}

#[test]
fn conversation_hashes() {
    let a = sample_conversation();
    let b = Conversation { hash: 78, ..sample_conversation() };
    assert!(distinct_hashes(&[&a, &b]));
    assert!(!distinct_hashes(&[&a, &b, &a]));
    assert!(distinct_hashes(&[]));
}
