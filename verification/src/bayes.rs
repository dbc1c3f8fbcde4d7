//! The link classifier: an online scorer that learns which link suits which
//! features of an address.
//!
//! For every known link the classifier counts how often each feature was
//! associated with it. The weight of a link for a feature list is its share
//! of all the association that the known links have with those features, as
//! a fixed-point number between 0 and 1: weights are integers, a millionth
//! each. The type of a weight is signed, but this classifier gives no
//! negative weight.
//!
//! The model only grows: training adds to counts, one feature list at a
//! time, and a link or a feature that was never met simply has no count
//! yet. Nothing is ever recomputed over the past, and nothing waits.
use crate::keyed::{
    distinct_links, lemma_position_unique, lemma_push_keeps_distinct,
    lemma_with_state_keeps_links, position_of, registered, with_state,
};
use crate::link::LinkId;
use std::collections::HashMap;
use vstd::prelude::*;

verus! {

/// The fixed-point value of the weight 1.0.
pub const WEIGHT_SCALE: i64 = 1_000_000;

/// By how much ordinary training strengthens an association.
pub const TRAIN_STEP: u64 = 1;

/// By how much a confirmed routing decision strengthens an association.
pub const SUPER_TRAIN_STEP: u64 = 2;

/// The suitability of a link, as the classifier scores it. The weight is a
/// signed fixed-point number: `WEIGHT_SCALE` stands for 1.0.
#[derive(Clone, Copy, Debug, PartialEq, Eq, Structural)]
pub struct LinkWeight {
    pub linkid: LinkId,
    pub weight: i64,
}

/// What a [`Bayes`] holds, as a mathematical value: the known links in the
/// order in which they came, each with the strength of its association with
/// every feature it has met.
pub type Model = Seq<(LinkId, Map<u64, u64>)>;

/// How strongly a link is associated with a feature.
pub open spec fn strength(counts: Map<u64, u64>, feature: u64) -> nat {
    if counts.contains_key(feature) {
        counts[feature] as nat
    } else {
        0
    }
}

/// The sum of the strengths of a link's associations with the features of a
/// list, a feature that stands twice counted twice.
pub open spec fn evidence(counts: Map<u64, u64>, features: Seq<u64>) -> nat
    decreases features.len(),
{
    if features.len() == 0 {
        0
    } else {
        evidence(counts, features.drop_last()) + strength(counts, features.last())
    }
}

/// The evidence for a link, cut off at `u64::MAX`.
pub open spec fn mass(counts: Map<u64, u64>, features: Seq<u64>) -> nat {
    if evidence(counts, features) < u64::MAX {
        evidence(counts, features)
    } else {
        u64::MAX as nat
    }
}

/// The mass of all known links together.
pub open spec fn total_mass(model: Model, features: Seq<u64>) -> nat
    decreases model.len(),
{
    if model.len() == 0 {
        0
    } else {
        total_mass(model.drop_last(), features) + mass(model.last().1, features)
    }
}

/// The weight of a link that holds `part` of a mass of `whole`: its share,
/// rounded down to a millionth, and 0 where there is no mass at all.
pub open spec fn share(part: nat, whole: nat) -> int {
    if whole == 0 {
        0
    } else {
        (part * WEIGHT_SCALE) / (whole as int)
    }
}

/// The weight of every known link for a feature list, in the order of the
/// model.
pub open spec fn weights(model: Model, features: Seq<u64>) -> Seq<LinkWeight> {
    Seq::new(
        model.len(),
        |i: int|
            LinkWeight {
                linkid: model[i].0,
                weight: share(mass(model[i].1, features), total_mass(model, features)) as i64,
            },
    )
}

/// A ranked list with one more entry: the entry stands behind every entry
/// whose weight is at least its own, and before the others.
pub open spec fn insert_ranked(ranked: Seq<LinkWeight>, lw: LinkWeight) -> Seq<LinkWeight>
    decreases ranked.len(),
{
    if ranked.len() == 0 {
        seq![lw]
    } else if ranked.last().weight >= lw.weight {
        ranked.push(lw)
    } else {
        insert_ranked(ranked.drop_last(), lw).push(ranked.last())
    }
}

/// The entries of a list by falling weight; entries of equal weight keep
/// the order they had.
pub open spec fn rank(weights: Seq<LinkWeight>) -> Seq<LinkWeight>
    decreases weights.len(),
{
    if weights.len() == 0 {
        Seq::empty()
    } else {
        insert_ranked(rank(weights.drop_last()), weights.last())
    }
}

/// The ranking of the known links for a feature list.
pub open spec fn ranking(model: Model, features: Seq<u64>) -> Seq<LinkWeight> {
    rank(weights(model, features))
}

/// The association of a link after one feature was met once more: stronger
/// by `step`, and never beyond `u64::MAX`.
pub open spec fn bump(counts: Map<u64, u64>, feature: u64, step: u64) -> Map<u64, u64> {
    counts.insert(
        feature,
        if strength(counts, feature) + step > u64::MAX {
            u64::MAX
        } else {
            (strength(counts, feature) + step) as u64
        },
    )
}

/// The associations of a link after every feature of a list was met once
/// more.
pub open spec fn learn(counts: Map<u64, u64>, features: Seq<u64>, step: u64) -> Map<u64, u64>
    decreases features.len(),
{
    if features.len() == 0 {
        counts
    } else {
        bump(learn(counts, features.drop_last(), step), features.last(), step)
    }
}

/// The model after a feature list was associated with a link. A link that
/// was not known becomes the last of the known links.
pub open spec fn trained(model: Model, features: Seq<u64>, link: LinkId, step: u64) -> Model {
    if registered(model, link) {
        with_state(model, link, learn(model[position_of(model, link)].1, features, step))
    } else {
        model.push((link, learn(Map::empty(), features, step)))
    }
}

/// Whether the entries of a list stand by falling weight.
pub open spec fn by_falling_weight(ranked: Seq<LinkWeight>) -> bool {
    forall|i: int, j: int|
        #![trigger ranked[i], ranked[j]]
        0 <= i < j < ranked.len() ==> ranked[i].weight >= ranked[j].weight
}

/// How often a feature stands in a list.
pub open spec fn occurrences(features: Seq<u64>, feature: u64) -> nat
    decreases features.len(),
{
    if features.len() == 0 {
        0
    } else {
        occurrences(features.drop_last(), feature) + if features.last() == feature {
            1nat
        } else {
            0nat
        }
    }
}

/// Ranking one more entry adds that entry and no other, and keeps a list
/// that stands by falling weight in that order.
pub proof fn lemma_insert_ranked(ranked: Seq<LinkWeight>, lw: LinkWeight)
    ensures
        insert_ranked(ranked, lw).len() == ranked.len() + 1,
        insert_ranked(ranked, lw).to_multiset() == ranked.to_multiset().insert(lw),
        forall|k: int|
            0 <= k < insert_ranked(ranked, lw).len() ==> {
                let e = #[trigger] insert_ranked(ranked, lw)[k];
                e == lw || ranked.contains(e)
            },
        by_falling_weight(ranked) ==> by_falling_weight(insert_ranked(ranked, lw)),
    decreases ranked.len(),
{
    let after = insert_ranked(ranked, lw);
    if ranked.len() == 0 {
        ranked.to_multiset_ensures();
        assert(after =~= ranked.push(lw));
    } else if ranked.last().weight >= lw.weight {
        ranked.to_multiset_ensures();
        assert forall|k: int| 0 <= k < after.len() implies {
            let e = #[trigger] after[k];
            e == lw || ranked.contains(e)
        } by {
            if k < ranked.len() {
                assert(ranked[k] == after[k]);
            }
        }
        if by_falling_weight(ranked) {
            assert forall|i: int, j: int|
                #![trigger after[i], after[j]]
                0 <= i < j < after.len() implies after[i].weight >= after[j].weight by {
                if j < ranked.len() {
                    assert(ranked[i].weight >= ranked[j].weight);
                } else if i < ranked.len() - 1 {
                    assert(ranked[i].weight >= ranked[ranked.len() - 1].weight);
                }
            }
        }
    } else {
        let front = ranked.drop_last();
        let last = ranked.last();
        let middle = insert_ranked(front, lw);
        lemma_insert_ranked(front, lw);
        assert(ranked =~= front.push(last));
        front.to_multiset_ensures();
        middle.to_multiset_ensures();
        assert(after.to_multiset() =~= ranked.to_multiset().insert(lw));
        assert forall|k: int| 0 <= k < after.len() implies {
            let e = #[trigger] after[k];
            e == lw || ranked.contains(e)
        } by {
            if k < middle.len() {
                let e = middle[k];
                if e != lw {
                    let at = choose|at: int| 0 <= at < front.len() && front[at] == e;
                    assert(ranked[at] == e);
                }
            } else {
                assert(ranked[ranked.len() - 1] == after[k]);
            }
        }
        if by_falling_weight(ranked) {
            assert forall|i: int, j: int|
                #![trigger front[i], front[j]]
                0 <= i < j < front.len() implies front[i].weight >= front[j].weight by {
                assert(ranked[i].weight >= ranked[j].weight);
            }
            assert forall|i: int, j: int|
                #![trigger after[i], after[j]]
                0 <= i < j < after.len() implies after[i].weight >= after[j].weight by {
                if j < middle.len() {
                    assert(middle[i].weight >= middle[j].weight);
                } else {
                    let e = middle[i];
                    if e != lw {
                        let at = choose|at: int| 0 <= at < front.len() && front[at] == e;
                        assert(ranked[at].weight >= ranked[ranked.len() - 1].weight);
                    }
                }
            }
        }
    }
}

/// A ranking holds the entries it was made of, each as often as it stood
/// there, by falling weight.
pub proof fn lemma_rank(weights: Seq<LinkWeight>)
    ensures
        rank(weights).len() == weights.len(),
        rank(weights).to_multiset() == weights.to_multiset(),
        by_falling_weight(rank(weights)),
    decreases weights.len(),
{
    if weights.len() == 0 {
        assert(weights =~= rank(weights));
    } else {
        let front = weights.drop_last();
        lemma_rank(front);
        lemma_insert_ranked(rank(front), weights.last());
        assert(weights =~= front.push(weights.last()));
        front.to_multiset_ensures();
    }
}

/// The classifier ranks every known link, and nothing else: the ranking is
/// as long as the model, the weight of each known link stands in it, each of
/// its entries is the weight of a known link, and no entry weighs more than
/// the first.
pub proof fn lemma_ranking_covers(model: Model, features: Seq<u64>)
    ensures
        ranking(model, features).len() == model.len(),
        by_falling_weight(ranking(model, features)),
        forall|i: int|
            0 <= i < model.len() ==> ranking(model, features).contains(
                #[trigger] weights(model, features)[i],
            ),
        forall|j: int|
            0 <= j < model.len() ==> weights(model, features).contains(
                #[trigger] ranking(model, features)[j],
            ),
        forall|j: int|
            0 <= j < model.len() ==> registered(
                model,
                (#[trigger] ranking(model, features)[j]).linkid,
            ),
        forall|j: int|
            0 <= j < model.len() ==> 0 <= (#[trigger] ranking(model, features)[j]).weight
                <= WEIGHT_SCALE,
{
    let all = weights(model, features);
    let ranked = ranking(model, features);
    lemma_rank(all);
    all.to_multiset_ensures();
    ranked.to_multiset_ensures();
    assert forall|i: int| 0 <= i < model.len() implies ranked.contains(#[trigger] all[i]) by {
        assert(all.contains(all[i]));
        assert(all.to_multiset().count(all[i]) > 0);
        assert(ranked.to_multiset().count(all[i]) > 0);
    }
    assert forall|j: int| 0 <= j < model.len() implies all.contains(#[trigger] ranked[j]) by {
        assert(ranked.contains(ranked[j]));
        assert(ranked.to_multiset().count(ranked[j]) > 0);
        assert(all.to_multiset().count(ranked[j]) > 0);
    }
    assert forall|j: int| 0 <= j < model.len() implies registered(
        model,
        (#[trigger] ranked[j]).linkid,
    ) && 0 <= ranked[j].weight <= WEIGHT_SCALE by {
        assert(all.contains(ranked[j]));
        let i = choose|i: int| 0 <= i < all.len() && all[i] == ranked[j];
        assert(model[i].0 == ranked[j].linkid);
        lemma_mass_within_total(model, features, i);
        lemma_share_bounds(mass(model[i].1, features), total_mass(model, features));
    }
}

/// Whether no link stands twice in a ranking.
pub open spec fn distinct_ranked(ranked: Seq<LinkWeight>) -> bool {
    forall|i: int, j: int|
        #![trigger ranked[i], ranked[j]]
        0 <= i < j < ranked.len() ==> ranked[i].linkid != ranked[j].linkid
}

/// The classifier ranks every known link once: where no link is known
/// twice, no link stands twice in the ranking.
pub proof fn lemma_ranking_distinct(model: Model, features: Seq<u64>)
    requires
        distinct_links(model),
    ensures
        distinct_ranked(ranking(model, features)),
{
    let all = weights(model, features);
    let ranked = ranking(model, features);
    lemma_rank(all);
    lemma_ranking_covers(model, features);
    assert forall|i: int, j: int| 0 <= i < all.len() && 0 <= j < all.len() && i != j implies all[i]
        != all[j] by {
        if i < j {
            assert(model[i].0 != model[j].0);
        } else {
            assert(model[j].0 != model[i].0);
        }
    }
    assert(all.no_duplicates());
    all.lemma_multiset_has_no_duplicates();
    ranked.lemma_multiset_has_no_duplicates_conv();
    assert forall|i: int, j: int|
        #![trigger ranked[i], ranked[j]]
        0 <= i < j < ranked.len() implies ranked[i].linkid != ranked[j].linkid by {
        assert(ranked[i] != ranked[j]);
        assert(all.contains(ranked[i]));
        assert(all.contains(ranked[j]));
        let a = choose|a: int| 0 <= a < all.len() && all[a] == ranked[i];
        let b = choose|b: int| 0 <= b < all.len() && all[b] == ranked[j];
        if a < b {
            assert(model[a].0 != model[b].0);
        } else if b < a {
            assert(model[b].0 != model[a].0);
        }
    }
}

/// Training strengthens the association with a feature by the step for each
/// time the feature stands in the list, up to `u64::MAX`, and leaves the
/// features that do not stand in the list as they were.
pub proof fn lemma_learn_strength(counts: Map<u64, u64>, features: Seq<u64>, step: u64, feature: u64)
    ensures
        strength(learn(counts, features, step), feature) == if strength(counts, feature) + step
            * occurrences(features, feature) < u64::MAX {
            strength(counts, feature) + step * occurrences(features, feature)
        } else {
            u64::MAX as int
        },
    decreases features.len(),
{
    if features.len() == 0 {
        assert(step * 0 == 0) by (nonlinear_arith);
    } else {
        let front = features.drop_last();
        lemma_learn_strength(counts, front, step, feature);
        let k = occurrences(front, feature);
        assert(step * (k + 1) == step * k + step) by (nonlinear_arith);
    }
}

/// A confirmed routing decision teaches more than ordinary training: for a
/// feature of the list the association is afterwards at least as strong as
/// after ordinary training, and stronger unless that has reached `u64::MAX`.
/// Ordinary training itself strengthens the association unless it stands at
/// `u64::MAX` already.
pub proof fn lemma_confirmed_training_is_stronger(
    counts: Map<u64, u64>,
    features: Seq<u64>,
    feature: u64,
)
    requires
        features.contains(feature),
    ensures
        TRAIN_STEP < SUPER_TRAIN_STEP,
        strength(learn(counts, features, TRAIN_STEP), feature) > strength(counts, feature)
            || strength(counts, feature) == u64::MAX,
        strength(learn(counts, features, SUPER_TRAIN_STEP), feature) >= strength(
            learn(counts, features, TRAIN_STEP),
            feature,
        ),
        strength(learn(counts, features, TRAIN_STEP), feature) < u64::MAX ==> strength(
            learn(counts, features, SUPER_TRAIN_STEP),
            feature,
        ) > strength(learn(counts, features, TRAIN_STEP), feature),
{
    lemma_learn_strength(counts, features, TRAIN_STEP, feature);
    lemma_learn_strength(counts, features, SUPER_TRAIN_STEP, feature);
    lemma_occurs(features, feature);
}

/// A feature that stands in a list occurs there at least once.
proof fn lemma_occurs(features: Seq<u64>, feature: u64)
    requires
        features.contains(feature),
    ensures
        occurrences(features, feature) >= 1,
    decreases features.len(),
{
    let at = choose|at: int| 0 <= at < features.len() && features[at] == feature;
    if at < features.len() - 1 {
        assert(features.drop_last()[at] == feature);
        lemma_occurs(features.drop_last(), feature);
    }
}

/// One known link and its associations.
struct LinkTally {
    link: LinkId,
    counts: HashMap<u64, u64>,
}

/// The link classifier.
pub struct Bayes {
    tallies: Vec<LinkTally>,
}

impl View for Bayes {
    type V = Model;

    closed spec fn view(&self) -> Model {
        self.tallies@.map_values(|t: LinkTally| (t.link, t.counts@))
    }
}

/// Strengthens the associations in `counts` with every feature of a list.
fn learn_into(counts: &mut HashMap<u64, u64>, features: &Vec<u64>, step: u64)
    ensures
        final(counts)@ == learn(old(counts)@, features@, step),
{
    let mut i: usize = 0;
    while i < features.len()
        invariant
            i <= features.len(),
            counts@ == learn(old(counts)@, features@.take(i as int), step),
        decreases features.len() - i,
    {
        let feature: u64 = features[i];
        let held: u64 = match counts.get(&feature) {
            Some(count) => *count,
            None => 0,
        };
        let next: u64 = if held > u64::MAX - step {
            u64::MAX
        } else {
            held + step
        };
        counts.insert(feature, next);
        proof {
            assert(features@.take(i + 1).drop_last() =~= features@.take(i as int));
        }
        i = i + 1;
    }
    proof {
        assert(features@.take(i as int) =~= features@);
    }
}

/// Where the entries from place `at` on weigh less than a new entry, and
/// the entry before them does not, the new entry is ranked at place `at`.
proof fn lemma_insert_ranked_at(ranked: Seq<LinkWeight>, lw: LinkWeight, at: int)
    requires
        0 <= at <= ranked.len(),
        forall|k: int| at <= k < ranked.len() ==> (#[trigger] ranked[k]).weight < lw.weight,
        at > 0 ==> ranked[at - 1].weight >= lw.weight,
    ensures
        insert_ranked(ranked, lw) == ranked.insert(at, lw),
    decreases ranked.len(),
{
    if ranked.len() == 0 {
        assert(seq![lw] =~= ranked.insert(at, lw));
    } else if at == ranked.len() {
        assert(ranked.push(lw) =~= ranked.insert(at, lw));
    } else {
        assert(ranked.last() == ranked[ranked.len() - 1]);
        let front = ranked.drop_last();
        assert forall|k: int| at <= k < front.len() implies (#[trigger] front[k]).weight
            < lw.weight by {
            assert(front[k] == ranked[k]);
        }
        lemma_insert_ranked_at(front, lw, at);
        assert(front.insert(at, lw).push(ranked.last()) =~= ranked.insert(at, lw));
    }
}

/// The mass of a known link is part of the total mass.
pub proof fn lemma_mass_within_total(model: Model, features: Seq<u64>, at: int)
    requires
        0 <= at < model.len(),
    ensures
        mass(model[at].1, features) <= total_mass(model, features),
    decreases model.len(),
{
    if at < model.len() - 1 {
        lemma_mass_within_total(model.drop_last(), features, at);
    }
}

/// No link holds more than the whole: a weight lies between 0 and 1.
pub proof fn lemma_share_bounds(part: nat, whole: nat)
    requires
        part <= whole,
    ensures
        0 <= share(part, whole) <= WEIGHT_SCALE,
{
    if whole > 0 {
        let scale = WEIGHT_SCALE as int;
        let p = part as int;
        let w = whole as int;
        assert(0 <= (p * scale) / w <= scale) by (nonlinear_arith)
            requires
                0 <= p <= w,
                0 < w,
                0 < scale,
        ;
    }
}

/// The mass of one link for a feature list.
fn mass_of(counts: &HashMap<u64, u64>, features: &Vec<u64>) -> (m: u64)
    ensures
        m == mass(counts@, features@),
{
    let mut acc: u64 = 0;
    let mut i: usize = 0;
    while i < features.len()
        invariant
            i <= features.len(),
            acc == mass(counts@, features@.take(i as int)),
        decreases features.len() - i,
    {
        let held: u64 = match counts.get(&features[i]) {
            Some(count) => *count,
            None => 0,
        };
        proof {
            assert(features@.take(i + 1).drop_last() =~= features@.take(i as int));
        }
        acc = if acc > u64::MAX - held {
            u64::MAX
        } else {
            acc + held
        };
        i = i + 1;
    }
    proof {
        assert(features@.take(i as int) =~= features@);
    }
    acc
}

/// Puts an entry into a ranked list at the place its weight gives it.
fn insert_by_rank(ranked: &mut Vec<LinkWeight>, lw: LinkWeight)
    ensures
        final(ranked)@ == insert_ranked(old(ranked)@, lw),
{
    let mut at: usize = ranked.len();
    while at > 0 && ranked[at - 1].weight < lw.weight
        invariant
            at <= ranked.len(),
            ranked@ == old(ranked)@,
            forall|k: int| at <= k < ranked.len() ==> (#[trigger] ranked@[k]).weight < lw.weight,
        decreases at,
    {
        at = at - 1;
    }
    proof {
        lemma_insert_ranked_at(ranked@, lw, at as int);
    }
    ranked.insert(at, lw);
}

impl Bayes {
    /// The invariant of the classifier: no link is known twice.
    pub open spec fn wf(&self) -> bool {
        distinct_links(self@)
    }

    /// A classifier that knows no link.
    pub fn new() -> (bayes: Bayes)
        ensures
            bayes@ == Seq::<(LinkId, Map<u64, u64>)>::empty(),
            bayes.wf(),
    {
        let bayes = Bayes { tallies: Vec::new() };
        proof {
            assert(bayes@ =~= Seq::<(LinkId, Map<u64, u64>)>::empty());
        }
        bayes
    }

    /// The number of known links.
    pub fn len(&self) -> (n: usize)
        ensures
            n == self@.len(),
    {
        self.tallies.len()
    }

    /// The place of a link among the known links, if it is known.
    fn place(&self, link: &LinkId) -> (place: Option<usize>)
        ensures
            place is Some <==> registered(self@, *link),
            place matches Some(at) ==> at < self@.len() && self@[at as int].0 == *link,
            place matches Some(at) ==> self.wf() ==> at == position_of(self@, *link),
    {
        let mut i: usize = 0;
        while i < self.tallies.len()
            invariant
                i <= self.tallies.len(),
                self@.len() == self.tallies.len(),
                forall|k: int| 0 <= k < i ==> (#[trigger] self@[k]).0 != *link,
            decreases self.tallies.len() - i,
        {
            if self.tallies[i].link == *link {
                proof {
                    assert(self@[i as int].0 == *link);
                    if self.wf() {
                        lemma_position_unique(self@, i as int);
                    }
                }
                return Some(i);
            }
            i = i + 1;
        }
        None
    }

    /// Whether the link is known.
    pub fn knows(&self, link: &LinkId) -> (known: bool)
        ensures
            known == registered(self@, *link),
    {
        self.place(link).is_some()
    }

    /// Makes a link known. A new link has no association yet and becomes the
    /// last of the known links; a known link stays as it is.
    pub fn add_link(&mut self, link: &LinkId)
        requires
            old(self).wf(),
        ensures
            final(self).wf(),
            final(self)@ == if registered(old(self)@, *link) {
                old(self)@
            } else {
                old(self)@.push((*link, Map::<u64, u64>::empty()))
            },
    {
        if self.place(link).is_none() {
            self.tallies.push(LinkTally { link: *link, counts: HashMap::new() });
            proof {
                assert(self@ =~= old(self)@.push((*link, Map::<u64, u64>::empty())));
                lemma_push_keeps_distinct(old(self)@, *link, Map::<u64, u64>::empty());
            }
        }
    }

    /// Associates a feature list with a link, each feature by `step`.
    fn reinforce(&mut self, features: &Vec<u64>, link: &LinkId, step: u64)
        requires
            old(self).wf(),
        ensures
            final(self).wf(),
            final(self)@ == trained(old(self)@, features@, *link, step),
    {
        match self.place(link) {
            Some(at) => {
                learn_into(&mut self.tallies[at].counts, features, step);
                proof {
                    assert(self@ =~= trained(old(self)@, features@, *link, step));
                    lemma_with_state_keeps_links(
                        old(self)@,
                        *link,
                        learn(old(self)@[at as int].1, features@, step),
                    );
                }
            },
            None => {
                let mut counts: HashMap<u64, u64> = HashMap::new();
                learn_into(&mut counts, features, step);
                self.tallies.push(LinkTally { link: *link, counts });
                proof {
                    assert(self@ =~= trained(old(self)@, features@, *link, step));
                    lemma_push_keeps_distinct(
                        old(self)@,
                        *link,
                        learn(Map::empty(), features@, step),
                    );
                }
            },
        }
    }

    /// Ordinary training: strengthens the association of every feature of
    /// the list with the link by [`TRAIN_STEP`].
    pub fn train(&mut self, features: &Vec<u64>, link: &LinkId)
        requires
            old(self).wf(),
        ensures
            final(self).wf(),
            final(self)@ == trained(old(self)@, features@, *link, TRAIN_STEP),
    {
        self.reinforce(features, link, TRAIN_STEP);
    }

    /// Training on a confirmed routing decision: strengthens the association
    /// of every feature of the list with the link by [`SUPER_TRAIN_STEP`].
    pub fn super_train(&mut self, features: &Vec<u64>, link: &LinkId)
        requires
            old(self).wf(),
        ensures
            final(self).wf(),
            final(self)@ == trained(old(self)@, features@, *link, SUPER_TRAIN_STEP),
    {
        self.reinforce(features, link, SUPER_TRAIN_STEP);
    }

    /// Ranks the known links for a feature list: every known link once, with
    /// its weight, by falling weight; links of equal weight in the order in
    /// which they became known.
    pub fn classify(&self, features: &Vec<u64>) -> (ranked: Vec<LinkWeight>)
        ensures
            ranked@ == ranking(self@, features@),
            ranked@.len() == self@.len(),
            by_falling_weight(ranked@),
            forall|i: int|
                0 <= i < self@.len() ==> ranked@.contains(#[trigger] weights(self@, features@)[i]),
            forall|j: int|
                0 <= j < ranked@.len() ==> registered(self@, (#[trigger] ranked@[j]).linkid) && 0
                    <= ranked@[j].weight <= WEIGHT_SCALE,
            self.wf() ==> distinct_ranked(ranked@),
    {
        proof {
            lemma_ranking_covers(self@, features@);
            if self.wf() {
                lemma_ranking_distinct(self@, features@);
            }
        }
        let n: usize = self.tallies.len();
        let mut masses: Vec<u64> = Vec::new();
        let mut total: u128 = 0;
        let mut i: usize = 0;
        while i < n
            invariant
                n == self.tallies.len(),
                n == self@.len(),
                i <= n,
                masses.len() == i,
                forall|k: int| 0 <= k < i ==> masses@[k] == mass((#[trigger] self@[k]).1, features@),
                total == total_mass(self@.take(i as int), features@),
                total <= i * u64::MAX,
            decreases n - i,
        {
            let m: u64 = mass_of(&self.tallies[i].counts, features);
            proof {
                assert(self@.take(i + 1).drop_last() =~= self@.take(i as int));
                assert((i + 1) * u64::MAX <= u64::MAX * u64::MAX) by (nonlinear_arith)
                    requires
                        0 <= i + 1 <= u64::MAX,
                ;
            }
            total = total + m as u128;
            masses.push(m);
            i = i + 1;
        }
        proof {
            assert(self@.take(n as int) =~= self@);
        }
        let ghost all = weights(self@, features@);
        let mut ranked: Vec<LinkWeight> = Vec::new();
        let mut j: usize = 0;
        while j < n
            invariant
                n == self.tallies.len(),
                n == self@.len(),
                j <= n,
                masses.len() == n,
                forall|k: int| 0 <= k < n ==> masses@[k] == mass((#[trigger] self@[k]).1, features@),
                total == total_mass(self@, features@),
                all == weights(self@, features@),
                ranked@ == rank(all.take(j as int)),
            decreases n - j,
        {
            let m: u64 = masses[j];
            proof {
                assert(m == mass(self@[j as int].1, features@));
                lemma_mass_within_total(self@, features@, j as int);
                lemma_share_bounds(m as nat, total as nat);
            }
            let weight: i64 = if total == 0 {
                0
            } else {
                ((m as u128 * 1_000_000u128) / total) as i64
            };
            let lw = LinkWeight { linkid: self.tallies[j].link, weight };
            proof {
                assert(lw == all[j as int]);
                assert(all.take(j + 1).drop_last() =~= all.take(j as int));
            }
            insert_by_rank(&mut ranked, lw);
            j = j + 1;
        }
        proof {
            assert(all.take(n as int) =~= all);
        }
        ranked
    }
}

} // verus!
