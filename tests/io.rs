use lnsim::io::{PathInfo, PaymentInfo};
use lnsim::payment::{CandidatePath, Path, Payment};

fn hop(node: &str, amount: usize, time: usize, channel: &str) -> (String, usize, usize, String) {
    (node.to_string(), amount, time, channel.to_string())
}

#[test]
fn payment_info_from_payment() {
    let used_paths = vec![
        CandidatePath {
            path: Path {
                src: "bob".to_string(),
                dest: "alice".to_string(),
                hops: vec![
                    hop("bob", 6010, 5, "bob-carol"),
                    hop("carol", 10, 5, "carol-alice"),
                    hop("alice", 6000, 0, "alice-carol"),
                ],
            },
            amount: 2010,
            time: 5,
        },
        CandidatePath {
            path: Path {
                src: "bob".to_string(),
                dest: "alice".to_string(),
                hops: vec![
                    hop("bob", 6030, 10, "bob-eve"),
                    hop("eve", 20, 5, "eve-carol"),
                    hop("carol", 10, 5, "carol-alice"),
                    hop("alice", 6000, 0, "alice-carol"),
                ],
            },
            amount: 2030,
            time: 10,
        },
    ];
    let source = "bob".to_string();
    let dest = "alice".to_string();
    let amount_msat = 2000;
    let payment = Payment {
        payment_id: 0,
        source: source.clone(),
        dest: dest.clone(),
        amount_msat,
        succeeded: false,
        min_shard_amt: 10,
        htlc_attempts: 2,
        num_parts: 1,
        used_paths,
        failed_amounts: Vec::default(),
        successful_shards: Vec::default(),
        failed_paths: vec![],
    };
    let actual = PaymentInfo::from_payment(&payment);
    let expected = PaymentInfo {
        id: 0,
        num_parts: 1,
        htlc_attempts: 2,
        succeeded: false,
        used_paths: vec![
            PathInfo {
                total_fees: 10,
                total_time: 5,
                path_len: 2,
            },
            PathInfo {
                total_fees: 30,
                total_time: 10,
                path_len: 3,
            },
        ],
        failed_paths: vec![],
    };
    assert_ne!(actual, expected);
}

#[test]
fn path_info_summarises_fees_time_and_hop_count() {
    let path = CandidatePath {
        path: Path {
            src: "bob".to_string(),
            dest: "alice".to_string(),
            hops: vec![
                hop("bob", 6030, 10, "bob-eve"),
                hop("eve", 20, 5, "eve-carol"),
                hop("carol", 10, 5, "carol-alice"),
                hop("alice", 6000, 0, "alice-carol"),
            ],
        },
        amount: 2030,
        time: 10,
    };
    assert_eq!(path.path_fees(), 30);
    assert_eq!(path.path_length(), 4);
    let infos = PathInfo::from_payment(&[path]);
    assert_eq!(
        infos,
        vec![PathInfo {
            total_fees: 30,
            total_time: 10,
            path_len: 4
        }]
    );
}

#[test]
fn projection_skips_paths_without_hops() {
    let empty = CandidatePath {
        path: Path {
            src: "bob".to_string(),
            dest: "bob".to_string(),
            hops: vec![],
        },
        amount: 0,
        time: 0,
    };
    let direct = CandidatePath {
        path: Path {
            src: "bob".to_string(),
            dest: "alice".to_string(),
            hops: vec![hop("bob", 100, 5, "bob-alice"), hop("alice", 100, 0, "alice-bob")],
        },
        amount: 100,
        time: 5,
    };
    let payment = Payment {
        payment_id: 7,
        source: "bob".to_string(),
        dest: "alice".to_string(),
        amount_msat: 100,
        succeeded: true,
        min_shard_amt: 10,
        htlc_attempts: 2,
        num_parts: 1,
        used_paths: vec![empty.clone(), direct.clone()],
        failed_amounts: vec![100],
        successful_shards: vec![100],
        failed_paths: vec![empty],
    };
    let info = PaymentInfo::from_payment(&payment);
    assert_eq!(info.id, 7);
    assert!(info.succeeded);
    assert_eq!(
        info.used_paths,
        vec![PathInfo {
            total_fees: 0,
            total_time: 5,
            path_len: 2
        }]
    );
    assert!(info.failed_paths.is_empty());
}

#[test]
fn fees_that_overflow_are_reported() {
    let big = CandidatePath {
        path: Path {
            src: "a".to_string(),
            dest: "d".to_string(),
            hops: vec![
                hop("a", 1, 1, "a-b"),
                hop("b", usize::MAX, 1, "b-c"),
                hop("c", 1, 1, "c-d"),
                hop("d", 1, 0, "d-c"),
            ],
        },
        amount: 1,
        time: 3,
    };
    assert_eq!(big.checked_path_fees(), None);
    let mut fine = big.clone();
    fine.path.hops[1].1 = 40;
    fine.path.hops[2].1 = 2;
    assert_eq!(fine.checked_path_fees(), Some(42));
    let payment = |paths: Vec<CandidatePath>| Payment {
        payment_id: 0,
        source: "a".to_string(),
        dest: "d".to_string(),
        amount_msat: 1,
        succeeded: false,
        min_shard_amt: 10,
        htlc_attempts: 1,
        num_parts: 1,
        used_paths: vec![],
        failed_amounts: vec![1],
        successful_shards: vec![],
        failed_paths: paths,
    };
    assert!(lnsim::io::all_payment_fees_fit(&vec![payment(vec![fine])]));
    assert!(!lnsim::io::all_payment_fees_fit(&vec![payment(vec![big])]));
}
