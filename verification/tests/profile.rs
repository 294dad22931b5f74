//! The learner's store: uniform witnessing, clamped regrets, and
//! regret-matched policies.

use holdem_blueprint::mccfr::bucket::Abstraction;
use holdem_blueprint::mccfr::bucket::Bucket;
use holdem_blueprint::mccfr::edge::Edge;
use holdem_blueprint::mccfr::path::Path;
use holdem_blueprint::mccfr::profile::Profile;
use holdem_blueprint::mccfr::profile::POLICY_SCALE;
use holdem_blueprint::mccfr::profile::REGRET_MAX;
use holdem_blueprint::mccfr::profile::REGRET_MIN;

fn bucket_of(id: u64) -> Bucket {
    Bucket::new(Path::from_bits(id), Abstraction::from_id(id), Path::from_bits(id))
}

#[test]
fn witness_spreads_policy_uniformly() {
    let mut profile = Profile::load();
    let bucket = bucket_of(7);
    let edges = vec![Edge::Fold, Edge::Call, Edge::Shove];
    profile.witness(bucket, &edges);
    let each = POLICY_SCALE / 3;
    let mut sum: u64 = 0;
    for e in edges.iter() {
        let p = profile.policy(bucket, *e);
        assert_eq!(p, ((each as u64) * (POLICY_SCALE as u64)) / (3 * each as u64));
        sum += profile.strategies[0]
            .edges
            .iter()
            .find(|en| en.edge == *e)
            .unwrap()
            .decision
            .policy as u64;
    }
    // within one milli-unit per edge of a whole unit of probability
    assert!(sum <= POLICY_SCALE as u64);
    assert!(sum > (POLICY_SCALE as u64) - 3);
}

#[test]
fn witness_is_idempotent() {
    let mut profile = Profile::load();
    let bucket = bucket_of(9);
    let edges = vec![Edge::Check, Edge::Shove];
    profile.witness(bucket, &edges);
    profile.witness(bucket, &edges);
    assert_eq!(profile.strategies.len(), 1);
}

#[test]
fn regret_update_stays_clamped() {
    let mut profile = Profile::load();
    let bucket = bucket_of(1);
    let edges = vec![Edge::Fold, Edge::Call];
    profile.witness(bucket, &edges);
    for _ in 0..3 {
        profile.regret_update(bucket_of(1), &vec![(Edge::Fold, REGRET_MAX), (Edge::Call, REGRET_MIN)]);
    }
    for strategy in profile.strategies.iter() {
        for entry in strategy.edges.iter() {
            assert!(entry.decision.regret >= REGRET_MIN);
            assert!(entry.decision.regret <= REGRET_MAX);
        }
    }
}

#[test]
fn policy_vector_matches_positive_regret() {
    let mut profile = Profile::load();
    let bucket = bucket_of(2);
    let edges = vec![Edge::Fold, Edge::Call];
    profile.witness(bucket, &edges);
    profile.regret_update(bucket_of(2), &vec![(Edge::Call, 3000)]);
    let v = profile.policy_vector(bucket);
    // fold keeps only the floor weight; call takes nearly everything
    assert_eq!(v.len(), 2);
    assert!(v[1].1 > v[0].1);
    let total: u64 = v.iter().map(|p| p.1).sum();
    assert!(total <= POLICY_SCALE as u64);
    assert!(total >= (POLICY_SCALE as u64) - 2);
}

#[test]
fn regret_vector_clamps_gains() {
    let profile = Profile::load();
    let cfv = vec![(Edge::Fold, 10i64), (Edge::Call, i64::MAX / 2)];
    let v = profile.regret_vector(&cfv, 4);
    assert_eq!(v[0].1, 6);
    assert_eq!(v[1].1, REGRET_MAX);
}

#[test]
fn walker_alternates() {
    let mut profile = Profile::load();
    let first = profile.walker();
    profile.next();
    let second = profile.walker();
    assert_ne!(first, second);
}
