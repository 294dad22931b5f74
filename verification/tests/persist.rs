//! The binary column dump round-trips, at the byte level and through
//! a whole profile.

use holdem_blueprint::mccfr::bucket::Abstraction;
use holdem_blueprint::mccfr::bucket::Bucket;
use holdem_blueprint::mccfr::edge::Edge;
use holdem_blueprint::mccfr::path::Path;
use holdem_blueprint::mccfr::persist::decode_rows;
use holdem_blueprint::mccfr::persist::encode_rows;
use holdem_blueprint::mccfr::persist::from_rows;
use holdem_blueprint::mccfr::persist::profile_rows;
use holdem_blueprint::mccfr::persist::ProfileRow;
use holdem_blueprint::mccfr::profile::Profile;
use rand::Rng;

fn random_rows(buckets: usize) -> Vec<ProfileRow> {
    let mut rng = rand::thread_rng();
    let mut rows = Vec::new();
    for _ in 0..buckets {
        let past: u64 = rng.gen();
        let present: u64 = rng.gen();
        let future: u64 = rng.gen();
        let edges: u64 = rng.gen_range(1..=8);
        for edge in 0..edges {
            rows.push(ProfileRow {
                past,
                present,
                future,
                edge,
                regret: rng.gen(),
                policy: rng.gen(),
            });
        }
    }
    rows
}

#[test]
fn persistence() {
    // a hundred random buckets, each with one to eight random decisions
    let rows = random_rows(100);
    let bytes = encode_rows(&rows);
    let back = decode_rows(&bytes);
    assert_eq!(back, Some(rows));
}

#[test]
fn dump_layout_is_fixed() {
    let rows = vec![ProfileRow {
        past: 1,
        present: 2,
        future: 3,
        edge: 4,
        regret: 5,
        policy: 6,
    }];
    let bytes = encode_rows(&rows);
    assert_eq!(bytes.len(), 19 + 66 + 2);
    assert_eq!(&bytes[0..11], b"PGCOPY\n\xFF\r\n\0");
    assert_eq!(&bytes[19..21], &[0, 6]);
    assert_eq!(bytes[bytes.len() - 2], 0xFF);
    assert_eq!(bytes[bytes.len() - 1], 0xFF);
}

#[test]
fn malformed_dumps_read_as_nothing() {
    assert_eq!(decode_rows(&vec![]), None);
    let rows = random_rows(3);
    let mut bytes = encode_rows(&rows);
    bytes[0] = 0x00;
    assert_eq!(decode_rows(&bytes), None);
    let mut truncated = encode_rows(&rows);
    truncated.pop();
    assert_eq!(decode_rows(&truncated), None);
}

#[test]
fn profile_survives_a_save_and_load() {
    let mut rng = rand::thread_rng();
    let mut profile = Profile::load();
    for b in 0..100u64 {
        let bucket = Bucket::new(
            Path::from_bits(rng.gen()),
            Abstraction::from_id(rng.gen()),
            Path::from_bits(rng.gen()),
        );
        let all = [Edge::Draw, Edge::Fold, Edge::Check, Edge::Call, Edge::Shove];
        let n = rng.gen_range(1..=5usize);
        let edges: Vec<Edge> = all[..n].to_vec();
        profile.witness(bucket, &edges);
        let deltas: Vec<(Edge, i32)> =
            edges.iter().map(|e| (*e, rng.gen_range(-100000..100000))).collect();
        profile.regret_update(bucket, &deltas);
        let _ = b;
    }
    let rows = profile_rows(&profile);
    let bytes = encode_rows(&rows);
    let decoded = decode_rows(&bytes).expect("a dump the library wrote reads back");
    assert_eq!(decoded, rows);
    let reloaded = from_rows(&decoded);
    assert_eq!(reloaded.iterations, 0);
    // the reloaded store carries exactly the same rows
    assert_eq!(profile_rows(&reloaded), rows);
}

#[test]
fn rows_come_out_in_ascending_key_order() {
    let mut profile = Profile::load();
    let b_hi = Bucket::new(Path::from_bits(9), Abstraction::from_id(0), Path::from_bits(0));
    let b_lo = Bucket::new(Path::from_bits(1), Abstraction::from_id(7), Path::from_bits(3));
    profile.witness(b_hi, &vec![Edge::Shove, Edge::Fold]);
    profile.witness(b_lo, &vec![Edge::Check]);
    let rows = profile_rows(&profile);
    assert_eq!(rows.len(), 3);
    assert!(rows[0].past == 1);
    assert!(rows[1].past == 9 && rows[2].past == 9);
    // within a bucket, rows ascend by the packed edge
    assert!(rows[1].edge < rows[2].edge);
}
