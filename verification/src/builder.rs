//! Gathers the trees of the registered sources and merges them in the order
//! of registration: what a later source says stands over what an earlier one
//! said.

use crate::config::Config;
use crate::error::ConfigError;
use crate::merge::{lemma_merge_onto_empty, merge, merge_all_model, merge_model};
use crate::source::Source;
use crate::tree::{Tree, TreeModel};
use vstd::prelude::*;

verus! {

/// What a source handed back, the tree taken by its model.
pub type Outcome = Result<TreeModel, ConfigError>;

/// The merged tree after one more outcome: a tree is merged on top, a
/// failure ends the work and is kept.
pub open spec fn absorb_model(merged: TreeModel, outcome: Outcome) -> Outcome {
    match outcome {
        Ok(tree) => Ok(merge_model(merged, tree)),
        Err(error) => Err(error),
    }
}

/// The result of a run of outcomes, first to last, starting from the empty
/// object: the first failure, or else all trees merged in order.
pub open spec fn fold_outcomes(outcomes: Seq<Outcome>) -> Outcome
    decreases outcomes.len(),
{
    if outcomes.len() == 0 {
        Ok(TreeModel::empty_object())
    } else {
        match fold_outcomes(outcomes.drop_last()) {
            Ok(merged) => absorb_model(merged, outcomes.last()),
            Err(error) => Err(error),
        }
    }
}

/// Whether no outcome but the last is a failure.
pub open spec fn stops_at_failure(outcomes: Seq<Outcome>) -> bool {
    forall|i: int| 0 <= i < outcomes.len() - 1 ==> (#[trigger] outcomes[i]) is Ok
}

/// The outcome of a build, the configuration taken by its model.
pub open spec fn built_model(built: Result<Config, ConfigError>) -> Outcome {
    match built {
        Ok(config) => Ok(config@),
        Err(error) => Err(error),
    }
}

/// The outcome of a source, the tree taken by its model.
pub open spec fn outcome_model(outcome: Result<Tree, ConfigError>) -> Outcome {
    match outcome {
        Ok(tree) => Ok(tree@),
        Err(error) => Err(error),
    }
}

/// Takes in what one source handed back: its tree is merged on top of
/// `merged`, its failure is passed on.
pub fn absorb(merged: Tree, outcome: Result<Tree, ConfigError>) -> (next: Result<
    Tree,
    ConfigError,
>)
    ensures
        outcome_model(next) == absorb_model(merged@, outcome_model(outcome)),
{
    match outcome {
        Ok(tree) => Ok(merge(merged, tree)),
        Err(error) => Err(error),
    }
}

/// Where no outcome is a failure, the result is a tree.
proof fn lemma_fold_ok(outcomes: Seq<Outcome>)
    requires
        forall|j: int| 0 <= j < outcomes.len() ==> (#[trigger] outcomes[j]) is Ok,
    ensures
        fold_outcomes(outcomes) is Ok,
    decreases outcomes.len(),
{
    if outcomes.len() > 0 {
        let front = outcomes.drop_last();
        assert forall|j: int| 0 <= j < front.len() implies (#[trigger] front[j]) is Ok by {
            assert(outcomes[j] is Ok);
        }
        lemma_fold_ok(front);
    }
}

/// Fail-fast: the first failure is the result, whatever stands behind it.
pub proof fn lemma_first_failure_wins(outcomes: Seq<Outcome>, i: int)
    requires
        0 <= i < outcomes.len(),
        outcomes[i] is Err,
        forall|j: int| 0 <= j < i ==> (#[trigger] outcomes[j]) is Ok,
    ensures
        fold_outcomes(outcomes) == outcomes[i],
    decreases outcomes.len(),
{
    let front = outcomes.drop_last();
    if i == outcomes.len() - 1 {
        assert forall|j: int| 0 <= j < front.len() implies (#[trigger] front[j]) is Ok by {
            assert(outcomes[j] is Ok);
        }
        lemma_fold_ok(front);
    } else {
        assert(front[i] == outcomes[i]);
        assert forall|j: int| 0 <= j < i implies (#[trigger] front[j]) is Ok by {
            assert(outcomes[j] is Ok);
        }
        lemma_first_failure_wins(front, i);
    }
}

/// Where every source hands back a tree, the result is these trees merged
/// from left to right onto the empty object.
pub proof fn lemma_fold_of_trees(trees: Seq<TreeModel>)
    ensures
        fold_outcomes(Seq::new(trees.len(), |i: int| Ok::<TreeModel, ConfigError>(trees[i])))
            == Ok::<TreeModel, ConfigError>(merge_all_model(trees)),
    decreases trees.len(),
{
    if trees.len() > 0 {
        let outcomes = Seq::new(trees.len(), |i: int| Ok::<TreeModel, ConfigError>(trees[i]));
        let front = trees.drop_last();
        lemma_fold_of_trees(front);
        assert(outcomes.drop_last() =~= Seq::new(
            front.len(),
            |i: int| Ok::<TreeModel, ConfigError>(front[i]),
        ));
    }
}

/// Precedence of two sources: the tree of the second is merged on top of the
/// tree of the first.
pub proof fn lemma_fold_pair(first: TreeModel, second: TreeModel)
    ensures
        fold_outcomes(seq![Ok(first), Ok(second)]) == Ok::<TreeModel, ConfigError>(
            merge_model(first, second),
        ),
{
    let both: Seq<Outcome> = seq![Ok(first), Ok(second)];
    let one: Seq<Outcome> = seq![Ok(first)];
    assert(both.drop_last() =~= one);
    assert(one.drop_last() =~= Seq::<Outcome>::empty());
    reveal_with_fuel(fold_outcomes, 3);
    lemma_merge_onto_empty(first);
}

/// A source as a builder holds it: boxed, and seen through the trait.
pub struct Registered {
    source: Box<dyn Source>,
}

// The boxing stands in a function of its own: a function's result comes with
// its type, which the push below relies on.
fn register<S: Source + 'static>(source: S) -> (registered: Registered)
    ensures
        registered == (Registered { source: Box::new(source) }),
{
    Registered { source: Box::new(source) }
}

impl Registered {
    /// Whether `outcome` is something that the source of this entry hands
    /// back.
    pub closed spec fn yields(&self, outcome: Result<Tree, ConfigError>) -> bool {
        self.source.yields(outcome)
    }
}

/// What a run of sources handed back, each tree taken by its model.
pub open spec fn models(results: Seq<Result<Tree, ConfigError>>) -> Seq<Outcome> {
    Seq::new(results.len(), |i: int| outcome_model(results[i]))
}

/// The entry that a builder holds for `source`.
pub closed spec fn entry_of<S: Source + 'static>(source: S) -> Registered {
    Registered { source: Box::new(source) }
}

/// An ordered list of sources, to be merged into a [`Config`].
pub struct ConfigBuilder {
    sources: Vec<Registered>,
}

impl View for ConfigBuilder {
    type V = Seq<Registered>;

    /// The sources registered, the first registered first.
    closed spec fn view(&self) -> Seq<Registered> {
        self.sources@
    }
}

impl ConfigBuilder {
    /// The number of sources registered.
    pub open spec fn count(&self) -> nat {
        self@.len()
    }

    /// A builder without sources.
    pub fn new() -> (builder: ConfigBuilder)
        ensures
            builder@ == Seq::<Registered>::empty(),
    {
        ConfigBuilder { sources: Vec::new() }
    }

    /// Registers `source` behind those registered before.
    pub fn add_source<S: Source + 'static>(self, source: S) -> (builder: ConfigBuilder)
        ensures
            builder@ == self@.push(entry_of(source)),
    {
        let mut sources = self.sources;
        sources.push(register(source));
        ConfigBuilder { sources }
    }

    /// Asks the sources in the order of registration and merges their trees,
    /// each on top of all before it. The first failure ends the build: no
    /// source behind it is asked, and the failure is handed back.
    ///
    /// The result is the fold of a run of results, one of each source from
    /// the first on, each one yielded by its source: the run ends at the
    /// first failure, and else goes through all sources.
    pub fn build(self) -> (built: Result<Config, ConfigError>)
        ensures
            exists|results: Seq<Result<Tree, ConfigError>>|
                #![trigger models(results)]
                results.len() <= self.count() && (forall|i: int|
                    0 <= i < results.len() ==> (#[trigger] self@[i]).yields(results[i]))
                    && stops_at_failure(models(results)) && (built is Ok ==> results.len()
                    == self.count()) && built_model(built) == fold_outcomes(models(results)),
    {
        let ghost mut results: Seq<Result<Tree, ConfigError>> = Seq::empty();
        let mut merged = Tree::empty_object();
        let mut i: usize = 0;
        assert(models(results) =~= Seq::<Outcome>::empty());
        while i < self.sources.len()
            invariant
                i <= self.sources.len(),
                results.len() == i,
                forall|j: int| 0 <= j < results.len() ==> (#[trigger] self@[j]).yields(results[j]),
                forall|j: int| 0 <= j < results.len() ==> (#[trigger] results[j]) is Ok,
                fold_outcomes(models(results)) == Ok::<TreeModel, ConfigError>(merged@),
            decreases self.sources.len() - i,
        {
            let outcome = self.sources[i].source.collect();
            proof {
                let before = results;
                results = results.push(outcome);
                assert(self@[i as int].yields(outcome));
                assert(models(results).drop_last() =~= models(before));
                assert(models(results).last() == outcome_model(outcome));
            }
            match absorb(merged, outcome) {
                Ok(next) => {
                    merged = next;
                },
                Err(error) => {
                    assert(fold_outcomes(models(results)) == Err::<TreeModel, ConfigError>(error));
                    assert(stops_at_failure(models(results)));
                    return Err(error);
                },
            }
            i = i + 1;
        }
        let config = Config::new(merged);
        assert(built_model(Ok(config)) == fold_outcomes(models(results)));
        assert(stops_at_failure(models(results)));
        Ok(config)
    }
}

} // verus!
