use pollard_rho::config::{SearchConfig, SearchError};
use pollard_rho::digest::{bytes_eq, clone_bytes, digest_key};
use pollard_rho::refine::refine;
use pollard_rho::rendezvous::{find_collision, Coordinator};
use pollard_rho::trail::{make_trail, trail_from, Trail};
use pollard_rho::walk::{hash_to_msg, is_distinguished, pollard_next, sha256_trunc};

use sha2::Digest;

fn cfg(width: usize, dp_bytes: usize) -> SearchConfig {
    SearchConfig { width, dp_bytes }
}

/// The walk recomputed directly with the outside crates, as a cross-check
/// of the library's trusted wrappers.
fn reference_walk(width: usize, d: &[u8]) -> Vec<u8> {
    let msg = format!("hello {}", hex::encode(d));
    sha2::Sha256::digest(msg.as_bytes())[..width].to_vec()
}

#[test]
fn hash_to_msg_exact() {
    let d = vec![0x01u8, 0xab];
    let msg = hash_to_msg(&d);
    assert_eq!(msg, "hello 01ab".as_bytes().to_vec());
}

#[test]
fn hash_to_msg_empty_digest() {
    let d: Vec<u8> = vec![];
    assert_eq!(hash_to_msg(&d), "hello ".as_bytes().to_vec());
}

#[test]
fn sha256_trunc_matches_reference() {
    let c = cfg(8, 0);
    let msg = "hello world".as_bytes().to_vec();
    let got = sha256_trunc(&c, &msg);
    let want = sha2::Sha256::digest("hello world".as_bytes())[..8].to_vec();
    assert_eq!(got, want);
}

#[test]
fn walk_is_deterministic() {
    let c = cfg(8, 2);
    let d = vec![1u8, 2, 3, 4, 5, 6, 7, 8];
    let r1 = pollard_next(&c, &d);
    let r2 = pollard_next(&c, &d);
    assert_eq!(r1, r2);
    assert_eq!(r1, reference_walk(8, &d));
    assert_eq!(r1.len(), 8);
}

#[test]
fn distinguished_checks_leading_zero_bytes() {
    let c = cfg(4, 2);
    assert!(is_distinguished(&c, &vec![0, 0, 1, 2]));
    assert!(!is_distinguished(&c, &vec![0, 1, 0, 0]));
    assert!(!is_distinguished(&c, &vec![1, 0, 0, 0]));
    let loose = cfg(4, 0);
    assert!(is_distinguished(&loose, &vec![9, 9, 9, 9]));
}

#[test]
fn digest_key_packs_big_endian() {
    assert_eq!(digest_key(&vec![0x01u8, 0x02]), 0x0102);
    assert_eq!(digest_key(&vec![]), 0);
    assert_eq!(digest_key(&vec![0xffu8; 8]), u64::MAX);
    assert_eq!(digest_key(&vec![0xabu8]), 0xab);
}

#[test]
fn byte_helpers() {
    let a = vec![1u8, 2, 3];
    let b = clone_bytes(&a);
    assert!(bytes_eq(&a, &b));
    assert!(!bytes_eq(&a, &vec![1u8, 2]));
    assert!(!bytes_eq(&a, &vec![1u8, 2, 4]));
}

#[test]
fn trail_endpoint_is_first_distinguished_point() {
    let c = cfg(2, 1);
    let start = vec![0x12u8, 0x34];
    match trail_from(&c, start.clone(), 20_000) {
        Ok(t) => {
            assert_eq!(t.start, start);
            assert!(is_distinguished(&c, &t.end));
            // replay: every point before the endpoint is ordinary
            let mut p = start;
            let mut steps = 0usize;
            while p != t.end {
                assert!(!is_distinguished(&c, &p));
                p = pollard_next(&c, &p);
                steps += 1;
                assert!(steps <= 20_000, "endpoint not reached on replay");
            }
        },
        Err(e) => {
            // a cycle without a distinguished point: the cap must be the cause
            assert_eq!(e, SearchError::TrailTooLong);
        },
    }
}

#[test]
fn trail_too_long_on_sparse_predicate() {
    let c = cfg(2, 2);
    let r = trail_from(&c, vec![0x01u8, 0x01], 5);
    assert_eq!(r.err(), Some(SearchError::TrailTooLong));
}

#[test]
fn coordinator_detects_on_match_not_insertion() {
    let c = cfg(2, 1);
    let mut coord = Coordinator::new(&c);
    let s1 = vec![1u8, 1];
    let s2 = vec![2u8, 2];
    let s3 = vec![3u8, 3];
    let e1 = vec![0u8, 5];
    let e2 = vec![0u8, 9];
    assert!(coord.offer(Trail { start: s1.clone(), end: e1.clone() }).is_none());
    assert!(coord.offer(Trail { start: s2.clone(), end: e2.clone() }).is_none());
    assert_eq!(coord.table_len(), 2);
    let hit = coord.offer(Trail { start: s3.clone(), end: e1.clone() });
    assert_eq!(hit, Some((s1, s3)));
    assert_eq!(coord.table_len(), 2);
}

#[test]
fn find_collision_over_synthetic_stream() {
    let c = cfg(2, 1);
    let s1 = vec![1u8, 1];
    let s2 = vec![2u8, 2];
    let s3 = vec![3u8, 3];
    let e1 = vec![0u8, 5];
    let e2 = vec![0u8, 9];
    let trails = vec![
        Trail { start: s1.clone(), end: e1.clone() },
        Trail { start: s2, end: e2 },
        Trail { start: s3.clone(), end: e1 },
    ];
    assert_eq!(find_collision(&c, &trails), Ok((s1, s3)));
}

#[test]
fn find_collision_fails_on_exhausted_stream() {
    let c = cfg(2, 1);
    let trails = vec![
        Trail { start: vec![1u8, 1], end: vec![0u8, 1] },
        Trail { start: vec![2u8, 2], end: vec![0u8, 2] },
    ];
    assert_eq!(find_collision(&c, &trails), Err(SearchError::ChannelClosedPrematurely));
    assert_eq!(find_collision(&c, &vec![]), Err(SearchError::ChannelClosedPrematurely));
}

/// With the digest narrowed to 16 bits and a loose predicate, a fully
/// deterministic enumeration of starting digests must terminate with two
/// distinct messages whose truncated hashes match exactly.
#[test]
fn narrowed_deterministic_search_finds_collision() {
    let c = cfg(2, 1);
    let cap = 2_000usize;
    let mut coord = Coordinator::new(&c);
    for counter in 256u16..3256 {
        let start = counter.to_be_bytes().to_vec();
        let t = match trail_from(&c, start, cap) {
            Ok(t) => t,
            Err(_) => continue,
        };
        if let Some((a, b)) = coord.offer(t) {
            match refine(&c, &a, &b, 5_000) {
                Ok(col) => {
                    assert_ne!(col.x, col.y);
                    assert_eq!(reference_walk(2, &col.x), reference_walk(2, &col.y));
                    assert_eq!(col.digest, reference_walk(2, &col.x));
                    assert_eq!(
                        col.msg_x,
                        format!("hello {}", hex::encode(&col.x)).into_bytes()
                    );
                    assert_eq!(
                        col.msg_y,
                        format!("hello {}", hex::encode(&col.y)).into_bytes()
                    );
                    return;
                },
                Err(_) => continue,
            }
        }
    }
    panic!("no collision found in a deterministic narrowed search");
}

/// Forcing the second trail onto the first (its start is one walk step from
/// the first's start) makes every meeting point an overlap: refinement must
/// keep walking and never report a pair with equal digests.
#[test]
fn refine_never_reports_overlap_as_collision() {
    let c = cfg(2, 1);
    let a0 = vec![0x12u8, 0x34];
    let b0 = pollard_next(&c, &a0);
    match refine(&c, &a0, &b0, 10_000) {
        Ok(col) => {
            assert_ne!(col.x, col.y);
            assert_eq!(reference_walk(2, &col.x), reference_walk(2, &col.y));
        },
        Err(e) => {
            assert!(
                e == SearchError::RefinementOverlapOnly || e == SearchError::TrailTooLong,
                "unexpected error: {:?}",
                e
            );
        },
    }
}

/// Replaying one and the same start twice never diverges: every meeting is
/// an overlap, so refinement must give up with the overlap error rather
/// than invent a collision.
#[test]
fn refine_overlap_only_error_on_identical_starts() {
    let c = cfg(2, 1);
    // the start is itself distinguished, so the first replay records nothing
    let a0 = vec![0u8, 7];
    let r = refine(&c, &a0, &a0, 50);
    assert_eq!(r.err(), Some(SearchError::RefinementOverlapOnly));
}

/// A single sequential producer must still find a collision: nothing in the
/// search requires more than one worker for correctness.
#[test]
fn single_worker_search_succeeds() {
    let c = cfg(2, 1);
    let cap = 2_000usize;
    let mut coord = Coordinator::new(&c);
    for _ in 0..20_000 {
        let t = match make_trail(&c, cap) {
            Ok(t) => t,
            Err(_) => continue,
        };
        if let Some((a, b)) = coord.offer(t) {
            match refine(&c, &a, &b, 5_000) {
                Ok(col) => {
                    assert_ne!(col.x, col.y);
                    assert_eq!(reference_walk(2, &col.x), reference_walk(2, &col.y));
                    return;
                },
                Err(_) => continue,
            }
        }
    }
    panic!("no collision found with a single sequential worker");
}
