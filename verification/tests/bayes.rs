use copernica::bayes::{Bayes, LinkWeight, SUPER_TRAIN_STEP, TRAIN_STEP, WEIGHT_SCALE};
use copernica::link::{LinkId, ReplyTo};

fn link(n: u32) -> LinkId {
    LinkId::new(n, 100 + n as u64, ReplyTo::Mpsc)
}

fn lw(n: u32, weight: i64) -> LinkWeight {
    LinkWeight { linkid: link(n), weight }
}

#[test]
fn classifier_without_links_ranks_nothing() {
    let bayes = Bayes::new();
    assert_eq!(bayes.len(), 0);
    assert_eq!(bayes.classify(&vec![1, 2, 3]), Vec::<LinkWeight>::new());
}

#[test]
fn untrained_links_weigh_nothing_and_keep_their_order() {
    let mut bayes = Bayes::new();
    bayes.add_link(&link(3));
    bayes.add_link(&link(1));
    bayes.add_link(&link(2));
    bayes.add_link(&link(1));
    assert_eq!(bayes.len(), 3);
    assert!(bayes.knows(&link(2)));
    assert!(!bayes.knows(&link(4)));
    assert_eq!(bayes.classify(&vec![1, 2, 3]), vec![lw(3, 0), lw(1, 0), lw(2, 0)]);
}

#[test]
fn a_weight_is_the_share_of_the_evidence() {
    let features = vec![1, 2, 3];
    let mut bayes = Bayes::new();
    bayes.add_link(&link(1));
    bayes.add_link(&link(2));
    bayes.train(&features, &link(1));
    bayes.super_train(&features, &link(2));
    assert_eq!(bayes.classify(&features), vec![lw(2, 666_666), lw(1, 333_333)]);
}

#[test]
fn the_only_trained_link_has_weight_one() {
    let features = vec![10, 20];
    let mut bayes = Bayes::new();
    bayes.add_link(&link(1));
    bayes.add_link(&link(2));
    bayes.train(&features, &link(2));
    assert_eq!(bayes.classify(&features), vec![lw(2, WEIGHT_SCALE), lw(1, 0)]);
}

#[test]
fn training_makes_a_link_known() {
    let mut bayes = Bayes::new();
    bayes.train(&vec![5], &link(7));
    assert!(bayes.knows(&link(7)));
    assert_eq!(bayes.classify(&vec![5]), vec![lw(7, 1_000_000)]);
    assert_eq!(bayes.classify(&vec![6]), vec![lw(7, 0)]);
}

#[test]
fn only_the_features_asked_for_count() {
    let mut bayes = Bayes::new();
    bayes.train(&vec![1, 2, 3, 4], &link(1));
    bayes.train(&vec![4, 5], &link(2));
    assert_eq!(bayes.classify(&vec![4]), vec![lw(1, 500_000), lw(2, 500_000)]);
    assert_eq!(bayes.classify(&vec![5]), vec![lw(2, 1_000_000), lw(1, 0)]);
    assert_eq!(bayes.classify(&vec![1, 4]), vec![lw(1, 666_666), lw(2, 333_333)]);
}

#[test]
fn a_feature_that_stands_twice_counts_twice() {
    let mut bayes = Bayes::new();
    bayes.train(&vec![1, 1], &link(1));
    bayes.train(&vec![2], &link(2));
    assert_eq!(bayes.classify(&vec![1, 2]), vec![lw(1, 666_666), lw(2, 333_333)]);
    assert_eq!(bayes.classify(&vec![1, 2, 2]), vec![lw(1, 500_000), lw(2, 500_000)]);
}

#[test]
fn confirmed_training_is_stronger_than_ordinary_training() {
    assert!(SUPER_TRAIN_STEP > TRAIN_STEP);
    let features = vec![1];
    let mut bayes = Bayes::new();
    bayes.train(&features, &link(1));
    bayes.super_train(&features, &link(2));
    let ranked = bayes.classify(&features);
    assert_eq!(ranked[0].linkid, link(2));
    assert!(ranked[0].weight > ranked[1].weight);
}

#[test]
fn ranking_falls_by_weight_and_covers_every_link() {
    let features = vec![1, 2];
    let mut bayes = Bayes::new();
    for n in 1..=5u32 {
        bayes.add_link(&link(n));
    }
    for _ in 0..3 {
        bayes.train(&features, &link(4));
    }
    bayes.train(&features, &link(2));
    bayes.super_train(&features, &link(5));
    let ranked = bayes.classify(&features);
    assert_eq!(
        ranked,
        vec![lw(4, 500_000), lw(5, 333_333), lw(2, 166_666), lw(1, 0), lw(3, 0)]
    );
}

#[test]
fn classify_does_not_change_the_classifier() {
    let features = vec![1, 2];
    let mut bayes = Bayes::new();
    bayes.train(&features, &link(1));
    bayes.train(&vec![2], &link(2));
    let first = bayes.classify(&features);
    let second = bayes.classify(&features);
    assert_eq!(first, second);
    assert_eq!(first, vec![lw(1, 666_666), lw(2, 333_333)]);
}
