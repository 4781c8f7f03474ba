//! The exploration of a state space: all states that can be reached from
//! the initial states of a model by its transitions.

use crate::algebra::deep;
use crate::operations::{checked_len, height_of, lemma_guide, minus, relational_product, union};
use crate::relation::{lemma_image_height, lemma_image_nothing, lemma_image_union, lemma_uniform};
use crate::semantics::{image, image_length, relation_levels, relation_tags, source_levels};
use crate::storage::{DataRef, Ldd, LddRef, Storage, EMPTY_SET, EMPTY_VECTOR};
use crate::sylvan_io::Transition;
use crate::tree::{canonical, denote, first_vector, height, size, Tree, Vector};
use vstd::prelude::*;

verus! {

/// What the program was asked to do.
pub struct Config {
    pub filename: String,
}

impl Config {
    /// Reads the arguments of the program: the first is the program's own
    /// name, and the second names the model.
    pub fn new(args: &[String]) -> (r: Result<Config, &'static str>)
        ensures
            match r {
                Ok(config) => args@.len() >= 2 && config.filename@ == args@[1]@,
                Err(message) => args@.len() < 2 && message@ == "Requires model filename"@,
            },
    {
        if args.len() < 2 {
            Err("Requires model filename")
        } else {
            Ok(Config { filename: args[1].clone() })
        }
    }
}

/// A relation with the tags of the levels that it reads and writes.
pub type Rule = (Set<Vector>, Seq<u32>);

/// The states that are reached from the states of `set` in one step of one
/// of the rules.
pub open spec fn step(set: Set<Vector>, rules: Seq<Rule>) -> Set<Vector>
    decreases rules.len(),
{
    if rules.len() == 0 {
        Set::empty()
    } else {
        step(set, rules.drop_last()).union(image(set, rules.last().0, rules.last().1))
    }
}

/// The states that are reached from the states of `initial` in at most
/// `rounds` steps.
pub open spec fn reached(initial: Set<Vector>, rules: Seq<Rule>, rounds: nat) -> Set<Vector>
    decreases rounds,
{
    if rounds == 0 {
        initial
    } else {
        reached(initial, rules, (rounds - 1) as nat).union(
            step(reached(initial, rules, (rounds - 1) as nat), rules),
        )
    }
}

/// Whether no step leads out of `set`.
pub open spec fn closed(set: Set<Vector>, rules: Seq<Rule>) -> bool {
    step(set, rules).subset_of(set)
}

/// The rules of some transitions in `storage`.
pub open spec fn rules_of(storage: &Storage, transitions: Seq<Transition>) -> Seq<Rule> {
    Seq::new(
        transitions.len(),
        |t: int|
            (
                storage.set_of(&transitions[t].relation),
                first_vector(storage.tree_of(&transitions[t].meta)),
            ),
    )
}

/// Whether the transitions can be applied to sets of vectors of the length
/// `length`, and lead to such sets: `storage` holds their relations and
/// their tags, which are tags of a relation, the relations have a level for
/// each tag but 0, the length is enough for the tags, and the tags neither
/// add a level nor take one away.
pub open spec fn ready(storage: &Storage, transitions: Seq<Transition>, length: nat) -> bool {
    forall|t: int|
        0 <= t < transitions.len() ==> {
            &&& storage.protects(&(#[trigger] transitions[t]).relation)
            &&& storage.protects(&transitions[t].meta)
            &&& storage.tree_of(&transitions[t].meta) != Tree::False
            &&& relation_tags(first_vector(storage.tree_of(&transitions[t].meta)))
            &&& deep(
                storage.tree_of(&transitions[t].relation),
                relation_levels(first_vector(storage.tree_of(&transitions[t].meta))),
            )
            &&& source_levels(first_vector(storage.tree_of(&transitions[t].meta))) <= length
            &&& image_length(length as int, first_vector(storage.tree_of(&transitions[t].meta)))
                == length
        }
}

/// The number of tags 3 among the tags.
pub open spec fn reads_taken(tags: Seq<u32>) -> nat
    decreases tags.len(),
{
    if tags.len() == 0 {
        0
    } else {
        reads_taken(tags.drop_first()) + (if tags[0] == 3 {
            1nat
        } else {
            0nat
        })
    }
}

/// The number of tags 4 among the tags.
pub open spec fn writes_added(tags: Seq<u32>) -> nat
    decreases tags.len(),
{
    if tags.len() == 0 {
        0
    } else {
        writes_added(tags.drop_first()) + (if tags[0] == 4 {
            1nat
        } else {
            0nat
        })
    }
}

/// The vectors of an image are as long as those of the set, less a value
/// for each tag 3, and with one more for each tag 4.
pub proof fn lemma_image_length_counts(length: int, tags: Seq<u32>)
    ensures
        image_length(length, tags) == length - reads_taken(tags) + writes_added(tags),
        source_levels(tags) + writes_added(tags) == tags.len(),
    decreases tags.len(),
{
    if tags.len() > 0 {
        lemma_image_length_counts(length, tags.drop_first());
        lemma_image_length_counts(length - 1, tags.drop_first());
    }
}

/// What a walk down the diagram of some tags finds.
pub struct Levels {
    /// Whether every tag is one of 0 to 4.
    pub valid: bool,
    /// The number of tags.
    pub tags: usize,
    /// The number of tags 0.
    pub silent: usize,
    /// The number of tags 3.
    pub taken: usize,
    /// The number of tags 4.
    pub added: usize,
}

/// Walks down the diagram `meta` and counts its tags. Returns nothing
/// where the counts do not fit a machine word.
pub fn count_levels(storage: &Storage, meta: LddRef) -> (r: Option<Levels>)
    requires
        storage.wf(),
        storage.valid(meta.index()),
    ensures
        match r {
            Some(levels) => {
                let tags = first_vector(storage.tree(meta.index()));
                &&& levels.valid == relation_tags(tags)
                &&& levels.tags == tags.len()
                &&& levels.tags - levels.silent == relation_levels(tags)
                &&& levels.tags - levels.added == source_levels(tags)
                &&& levels.taken == reads_taken(tags)
                &&& levels.added == writes_added(tags)
            },
            None => height(storage.tree(meta.index())) > usize::MAX,
        },
{
    let ghost tree = storage.tree(meta.index());
    let ghost all = first_vector(tree);
    let mut current = meta;
    let mut levels = Levels { valid: true, tags: 0, silent: 0, taken: 0, added: 0 };
    proof {
        lemma_guide(tree);
        assert(all.take(0) =~= Seq::<u32>::empty());
        assert(all.skip(0) =~= all);
    }
    loop
        invariant
            storage.wf(),
            storage.valid(current.index()),
            tree == storage.tree(meta.index()),
            all == first_vector(tree),
            levels.tags <= all.len(),
            first_vector(storage.tree(current.index())) == all.skip(levels.tags as int),
            levels.tags + height(storage.tree(current.index())) == height(tree),
            levels.valid == relation_tags(all.take(levels.tags as int)),
            levels.silent <= levels.tags,
            levels.added <= levels.tags,
            levels.taken <= levels.tags,
            levels.tags - levels.silent == relation_levels(all.take(levels.tags as int)),
            levels.tags - levels.added == source_levels(all.take(levels.tags as int)),
            levels.taken == reads_taken(all.take(levels.tags as int)),
            levels.added == writes_added(all.take(levels.tags as int)),
        decreases size(storage.tree(current.index())),
    {
        let ghost here = storage.tree(current.index());
        let ghost done = all.take(levels.tags as int);
        proof {
            storage.lemma_constants();
            lemma_guide(here);
            lemma_guide(tree);
        }
        if current.index() == EMPTY_SET || current.index() == EMPTY_VECTOR {
            proof {
                assert(all.skip(levels.tags as int).len() == 0);
                assert(done =~= all);
            }
            return Some(levels);
        }
        if levels.tags == usize::MAX {
            return None;
        }
        let DataRef(tag, down, _) = storage.get_ref(current);
        proof {
            let more = all.take(levels.tags as int + 1);
            assert(all.skip(levels.tags as int)[0] == tag);
            assert(all[levels.tags as int] == tag);
            assert(more =~= done.push(tag));
            assert(all.skip(levels.tags as int).drop_first() =~= all.skip(levels.tags as int + 1));
            lemma_tags_push(done, tag);
        }
        levels = Levels {
            valid: levels.valid && tag <= 4,
            tags: levels.tags + 1,
            silent: if tag == 0 {
                levels.silent + 1
            } else {
                levels.silent
            },
            taken: if tag == 3 {
                levels.taken + 1
            } else {
                levels.taken
            },
            added: if tag == 4 {
                levels.added + 1
            } else {
                levels.added
            },
        };
        current = down;
    }
}

/// What one more tag at the end adds to the counts of some tags.
pub proof fn lemma_tags_push(tags: Seq<u32>, tag: u32)
    ensures
        relation_tags(tags.push(tag)) == (relation_tags(tags) && tag <= 4),
        relation_levels(tags.push(tag)) == relation_levels(tags) + (if tag == 0 {
            0nat
        } else {
            1nat
        }),
        source_levels(tags.push(tag)) == source_levels(tags) + (if tag == 4 {
            0nat
        } else {
            1nat
        }),
        reads_taken(tags.push(tag)) == reads_taken(tags) + (if tag == 3 {
            1nat
        } else {
            0nat
        }),
        writes_added(tags.push(tag)) == writes_added(tags) + (if tag == 4 {
            1nat
        } else {
            0nat
        }),
    decreases tags.len(),
{
    let more = tags.push(tag);
    if tags.len() == 0 {
        assert(more.drop_first() =~= Seq::<u32>::empty());
        assert(more[0] == tag);
        assert(relation_levels(more.drop_first()) == 0);
        assert(source_levels(more.drop_first()) == 0);
        assert(reads_taken(more.drop_first()) == 0);
        assert(writes_added(more.drop_first()) == 0);
    } else {
        assert(more.drop_first() =~= tags.drop_first().push(tag));
        lemma_tags_push(tags.drop_first(), tag);
    }
    if relation_tags(tags) && tag <= 4 {
        assert forall|i: int| 0 <= i < more.len() implies #[trigger] more[i] <= 4 by {
            if i < tags.len() {
                assert(more[i] == tags[i]);
            }
        }
    }
    if relation_tags(more) {
        assert(more[tags.len() as int] <= 4);
        assert forall|i: int| 0 <= i < tags.len() implies #[trigger] tags[i] <= 4 by {
            assert(more[i] == tags[i]);
        }
    }
}

/// Whether `storage` holds the relations and the tags of the transitions.
pub open spec fn held(storage: &Storage, transitions: Seq<Transition>) -> bool {
    forall|t: int|
        0 <= t < transitions.len() ==> storage.protects(&(#[trigger] transitions[t]).relation)
            && storage.protects(&transitions[t].meta)
}

/// Whether the heights of the initial states, of the relations and of the
/// tags of the transitions fit a machine word.
pub open spec fn measurable(storage: &Storage, initial: &Ldd, transitions: Seq<Transition>) -> bool {
    &&& height(storage.tree_of(initial)) <= usize::MAX
    &&& forall|t: int|
        0 <= t < transitions.len() ==> height(
            storage.tree_of(&(#[trigger] transitions[t]).relation),
        ) <= usize::MAX && height(storage.tree_of(&transitions[t].meta)) <= usize::MAX
}

/// Whether one transition is ready for sets of vectors of the length
/// `length`.
pub open spec fn ready_at(storage: &Storage, transition: &Transition, length: nat) -> bool {
    &&& storage.protects(&transition.relation)
    &&& storage.protects(&transition.meta)
    &&& storage.tree_of(&transition.meta) != Tree::False
    &&& relation_tags(first_vector(storage.tree_of(&transition.meta)))
    &&& deep(
        storage.tree_of(&transition.relation),
        relation_levels(first_vector(storage.tree_of(&transition.meta))),
    )
    &&& source_levels(first_vector(storage.tree_of(&transition.meta))) <= length
    &&& image_length(length as int, first_vector(storage.tree_of(&transition.meta))) == length
}

/// Tells whether a transition can be applied to sets of vectors of the
/// length `length`, and leads to such sets.
fn applicable_at(storage: &Storage, transition: &Transition, length: usize) -> (r: bool)
    requires
        storage.wf(),
        storage.protects(&transition.relation),
        storage.protects(&transition.meta),
    ensures
        r ==> ready_at(storage, transition, length as nat),
        height(storage.tree_of(&transition.relation)) <= usize::MAX && height(
            storage.tree_of(&transition.meta),
        ) <= usize::MAX ==> r == ready_at(storage, transition, length as nat),
{
    let ghost tags = first_vector(storage.tree_of(&transition.meta));
    proof {
        storage.lemma_handle(&transition.relation);
        storage.lemma_handle(&transition.meta);
        lemma_image_length_counts(length as int, tags);
    }
    if storage.is_empty_set(&transition.meta) {
        return false;
    }
    let levels = match count_levels(storage, transition.meta.borrow()) {
        Some(levels) => levels,
        None => {
            return false;
        },
    };
    let deep_enough = if storage.is_empty_set(&transition.relation) {
        true
    } else {
        match height_of(storage, transition.relation.borrow()) {
            Some(h) => h >= levels.tags - levels.silent,
            None => {
                return false;
            },
        }
    };
    levels.valid && deep_enough && levels.tags - levels.added <= length && levels.taken
        == levels.added
}

/// Tells whether the transitions can be applied to the initial states and
/// to all states that they lead to: whether the exploration can run.
pub fn applicable(storage: &Storage, initial_state: &Ldd, transitions: &Vec<Transition>) -> (r: bool)
    requires
        storage.wf(),
        storage.protects(initial_state),
        held(storage, transitions@),
    ensures
        r ==> ready(storage, transitions@, height(storage.tree_of(initial_state))),
        measurable(storage, initial_state, transitions@) ==> r == ready(
            storage,
            transitions@,
            height(storage.tree_of(initial_state)),
        ),
{
    proof {
        storage.lemma_handle(initial_state);
    }
    let length = match height_of(storage, initial_state.borrow()) {
        Some(length) => length,
        None => {
            return false;
        },
    };
    let mut t: usize = 0;
    while t < transitions.len()
        invariant
            t <= transitions@.len(),
            storage.wf(),
            held(storage, transitions@),
            length == height(storage.tree_of(initial_state)),
            forall|k: int| 0 <= k < t ==> ready_at(storage, &#[trigger] transitions@[k], length as nat),
        decreases transitions@.len() - t,
    {
        assert(storage.protects(&transitions@[t as int].relation));
        if !applicable_at(storage, &transitions[t], length) {
            proof {
                if ready(storage, transitions@, length as nat) {
                    assert(ready_at(storage, &transitions@[t as int], length as nat));
                }
            }
            return false;
        }
        t += 1;
    }
    proof {
        assert forall|k: int| 0 <= k < transitions@.len() implies ready_at(
            storage,
            &#[trigger] transitions@[k],
            length as nat,
        ) by {}
    }
    true
}

/// The transitions stay ready, with their rules, in a storage that
/// preserves the handles.
pub proof fn lemma_ready(before: &Storage, after: &Storage, transitions: Seq<Transition>, length: nat)
    requires
        ready(before, transitions, length),
        after.preserves(before),
    ensures
        ready(after, transitions, length),
        rules_of(after, transitions) == rules_of(before, transitions),
{
    assert forall|t: int| 0 <= t < transitions.len() implies {
        &&& after.tree_of(&(#[trigger] transitions[t]).relation) == before.tree_of(
            &transitions[t].relation,
        )
        &&& after.tree_of(&transitions[t].meta) == before.tree_of(&transitions[t].meta)
        &&& after.protects(&transitions[t].relation)
        &&& after.protects(&transitions[t].meta)
    } by {
        assert(before.protects(&transitions[t].relation));
        assert(before.handles().contains_key(transitions[t].relation.slot()));
        assert(before.handles().contains_key(transitions[t].meta.slot()));
    }
    assert(rules_of(after, transitions) =~= rules_of(before, transitions));
}

/// A step from a union of two sets leads to what a step from one of them
/// leads to.
pub proof fn lemma_step_union(a: Set<Vector>, b: Set<Vector>, rules: Seq<Rule>)
    ensures
        step(a.union(b), rules) == step(a, rules).union(step(b, rules)),
    decreases rules.len(),
{
    if rules.len() > 0 {
        lemma_step_union(a, b, rules.drop_last());
        lemma_image_union(a, b, rules.last().0, rules.last().1);
    }
    assert(step(a.union(b), rules) =~= step(a, rules).union(step(b, rules)));
}

/// No step leads anywhere from the empty set.
pub proof fn lemma_step_nothing(rules: Seq<Rule>)
    ensures
        step(Set::empty(), rules) == Set::<Vector>::empty(),
    decreases rules.len(),
{
    if rules.len() > 0 {
        lemma_step_nothing(rules.drop_last());
        lemma_image_nothing(Set::empty(), rules.last().0, rules.last().1);
        assert(denote(Tree::False) =~= Set::<Vector>::empty());
    }
    assert(step(Set::<Vector>::empty(), rules) =~= Set::<Vector>::empty());
}

/// Returns the states that are reached from the states of `set` in one step
/// of one of the transitions.
pub fn successors(storage: &mut Storage, set: &Ldd, transitions: &Vec<Transition>) -> (r: Ldd)
    requires
        old(storage).wf(),
        old(storage).protects(set),
        exists|length: nat|
            #[trigger] ready(old(storage), transitions@, length) && (old(storage).tree_of(set)
                == Tree::False || height(old(storage).tree_of(set)) == length),
    ensures
        final(storage).yields(old(storage), &r),
        final(storage).set_of(&r) == step(
            old(storage).set_of(set),
            rules_of(old(storage), transitions@),
        ),
{
    let ghost length = choose|length: nat|
        #[trigger] ready(storage, transitions@, length) && (storage.tree_of(set) == Tree::False
            || height(storage.tree_of(set)) == length);
    successors_within(storage, set, transitions, Ghost(length))
}

/// Returns the states that are reached from the states of `set` in one step
/// of one of the transitions, where the vectors have the length `length`.
fn successors_within(
    storage: &mut Storage,
    set: &Ldd,
    transitions: &Vec<Transition>,
    Ghost(length): Ghost<nat>,
) -> (r: Ldd)
    requires
        old(storage).wf(),
        old(storage).protects(set),
        ready(old(storage), transitions@, length),
        old(storage).tree_of(set) == Tree::False || height(old(storage).tree_of(set)) == length,
    ensures
        final(storage).yields(old(storage), &r),
        final(storage).set_of(&r) == step(
            old(storage).set_of(set),
            rules_of(old(storage), transitions@),
        ),
        final(storage).tree_of(&r) == Tree::False || height(final(storage).tree_of(&r)) == length,
{
    let ghost rules = rules_of(storage, transitions@);
    let ghost from = storage.set_of(set);
    let ghost from_tree = storage.tree_of(set);
    proof {
        storage.lemma_constants();
        storage.lemma_handle(set);
    }
    let mut all = storage.protect(storage.empty_set().borrow());
    let mut t: usize = 0;
    proof {
        assert(rules.take(0) =~= Seq::<Rule>::empty());
        assert(storage.set_of(&all) =~= step(from, rules.take(0)));
    }
    while t < transitions.len()
        invariant
            t <= transitions@.len(),
            storage.wf(),
            storage.preserves(old(storage)),
            old(storage).protects(set),
            !old(storage).handles().contains_key(all.slot()),
            storage.handles() == old(storage).handles().insert(
                all.slot(),
                (all.index(), storage.tree_of(&all)),
            ),
            canonical(storage.tree_of(&all)),
            canonical(from_tree),
            from_tree == old(storage).tree_of(set),
            from == denote(from_tree),
            from_tree == Tree::False || height(from_tree) == length,
            ready(old(storage), transitions@, length),
            rules == rules_of(old(storage), transitions@),
            storage.set_of(&all) == step(from, rules.take(t as int)),
            storage.tree_of(&all) == Tree::False || height(storage.tree_of(&all)) == length,
        decreases transitions@.len() - t,
    {
        let ghost held = *storage;
        let ghost before = storage.set_of(&all);
        proof {
            lemma_ready(old(storage), storage, transitions@, length);
            assert(old(storage).handles().contains_key(set.slot()));
            assert(storage.handles().contains_key(set.slot()));
            assert(storage.tree_of(set) == from_tree);
        }
        let result = relational_product(
            storage,
            set,
            &transitions[t].relation,
            &transitions[t].meta,
        );
        proof {
            let rule = rules[t as int];
            assert(storage.set_of(&result) == image(from, rule.0, rule.1));
            if storage.tree_of(&result) != Tree::False {
                lemma_uniform(from_tree);
                lemma_image_height(
                    from,
                    rule.0,
                    rule.1,
                    height(from_tree) as int,
                    storage.tree_of(&result),
                );
                if from_tree == Tree::False {
                    lemma_image_nothing(from, rule.0, rule.1);
                    crate::tree::lemma_first_vector(storage.tree_of(&result));
                    assert(denote(storage.tree_of(&result)).contains(
                        first_vector(storage.tree_of(&result)),
                    ));
                }
            }
        }
        let next = union(storage, &all, &result);
        proof {
            assert(rules.take(t as int + 1).drop_last() =~= rules.take(t as int));
            assert(rules.take(t as int + 1).last() == rules[t as int]);
            let tn = storage.tree_of(&next);
            if tn != Tree::False {
                crate::tree::lemma_first_vector(tn);
                let x = first_vector(tn);
                assert(denote(tn).contains(x));
                crate::tree::lemma_uniform_length(tn, x);
                if before.contains(x) {
                    crate::tree::lemma_uniform_length(held.tree_of(&all), x);
                } else {
                    crate::tree::lemma_uniform_length(storage.tree_of(&result), x);
                }
            }
        }
        storage.release(all);
        storage.release(result);
        all = next;
        t += 1;
        proof {
            assert(storage.handles() =~= old(storage).handles().insert(
                all.slot(),
                (all.index(), storage.tree_of(&all)),
            ));
        }
    }
    proof {
        assert(rules.take(t as int) =~= rules);
    }
    all
}

/// A canonical term whose vectors all have the length `length` is the empty
/// set, or has that height.
pub proof fn lemma_level(t: Tree, length: nat)
    requires
        canonical(t),
        forall|x: Vector| denote(t).contains(x) ==> x.len() == length,
    ensures
        t == Tree::False || height(t) == length,
{
    if t != Tree::False {
        crate::tree::lemma_first_vector(t);
        assert(denote(t).contains(first_vector(t)));
        crate::tree::lemma_uniform_length(t, first_vector(t));
    }
}

/// One round of the exploration: where `states` are the states reached in
/// `rounds` steps, `frontier` are those of them whose steps were not taken yet,
/// and `new` are the states that the steps from `frontier` lead to, the states
/// reached in one more step are `states` and `new`, and the steps from all
/// but the new ones among them were taken.
pub proof fn lemma_round(
    initial: Set<Vector>,
    rules: Seq<Rule>,
    rounds: nat,
    states: Set<Vector>,
    frontier: Set<Vector>,
    new: Set<Vector>,
)
    requires
        states == reached(initial, rules, rounds),
        frontier.subset_of(states),
        step(states.difference(frontier), rules).subset_of(states),
        new == step(frontier, rules),
    ensures
        states.union(new.difference(states)) == reached(initial, rules, rounds + 1),
        step(
            states.union(new.difference(states)).difference(new.difference(states)),
            rules,
        ).subset_of(states.union(new.difference(states))),
        new.difference(states) == states.union(new.difference(states)).difference(states),
{
    let done = states.difference(frontier);
    let fresh = new.difference(states);
    let next = states.union(fresh);
    assert(done.union(frontier) =~= states);
    lemma_step_union(done, frontier, rules);
    assert(step(states, rules) == step(done, rules).union(new));
    assert(next =~= states.union(step(states, rules)));
    assert(next.difference(fresh) =~= states);
    assert(fresh =~= next.difference(states));
}

/// Explores the state space of a model: returns the number of states that
/// can be reached from the initial states by the transitions.
///
/// The exploration takes the steps from the new states of each round, until a
/// round finds no new state. It gives up after as many rounds as a `u64`
/// counts, and when the number of states does not fit a machine word.
pub fn run(storage: &mut Storage, initial_state: &Ldd, transitions: &Vec<Transition>) -> (r: Option<
    usize,
>)
    requires
        old(storage).wf(),
        old(storage).protects(initial_state),
        ready(old(storage), transitions@, height(old(storage).tree_of(initial_state))),
    ensures
        final(storage).wf(),
        final(storage).handles() == old(storage).handles(),
        final(storage).collects() == old(storage).collects(),
        final(storage).reports() == old(storage).reports(),
        match r {
            Some(n) => exists|rounds: nat|
                {
                    &&& closed(
                        #[trigger] reached(
                            old(storage).set_of(initial_state),
                            rules_of(old(storage), transitions@),
                            rounds,
                        ),
                        rules_of(old(storage), transitions@),
                    )
                    &&& reached(
                        old(storage).set_of(initial_state),
                        rules_of(old(storage), transitions@),
                        rounds,
                    ).finite()
                    &&& n == reached(
                        old(storage).set_of(initial_state),
                        rules_of(old(storage), transitions@),
                        rounds,
                    ).len()
                },
            None => (forall|rounds: nat|
                rounds + 1 < u64::MAX ==> !closed(
                    #[trigger] reached(
                        old(storage).set_of(initial_state),
                        rules_of(old(storage), transitions@),
                        rounds,
                    ),
                    rules_of(old(storage), transitions@),
                )) || (exists|rounds: nat|
                {
                    &&& closed(
                        #[trigger] reached(
                            old(storage).set_of(initial_state),
                            rules_of(old(storage), transitions@),
                            rounds,
                        ),
                        rules_of(old(storage), transitions@),
                    )
                    &&& reached(
                        old(storage).set_of(initial_state),
                        rules_of(old(storage), transitions@),
                        rounds,
                    ).len() >= usize::MAX
                }),
        },
{
    let ghost initial = storage.set_of(initial_state);
    let ghost rules = rules_of(storage, transitions@);
    let ghost length = height(storage.tree_of(initial_state));
    proof {
        storage.lemma_handle(initial_state);
        lemma_step_nothing(rules);
    }
    let mut frontier = storage.duplicate(initial_state);
    // The state space.
    let mut states = storage.duplicate(initial_state);
    let mut iteration: u64 = 0;
    proof {
        assert(storage.set_of(&states).difference(storage.set_of(&frontier)) =~= Set::<
            Vector,
        >::empty());
    }
    loop
        invariant
            storage.wf(),
            storage.collects() == old(storage).collects(),
            storage.reports() == old(storage).reports(),
            frontier.slot() != states.slot(),
            !old(storage).handles().contains_key(frontier.slot()),
            !old(storage).handles().contains_key(states.slot()),
            storage.handles() == old(storage).handles().insert(
                frontier.slot(),
                (frontier.index(), storage.tree_of(&frontier)),
            ).insert(states.slot(), (states.index(), storage.tree_of(&states))),
            canonical(storage.tree_of(&frontier)),
            canonical(storage.tree_of(&states)),
            storage.tree_of(&frontier) == Tree::False || height(storage.tree_of(&frontier)) == length,
            storage.tree_of(&states) == Tree::False || height(storage.tree_of(&states)) == length,
            ready(old(storage), transitions@, length),
            rules == rules_of(old(storage), transitions@),
            initial == old(storage).set_of(initial_state),
            storage.set_of(&states) == reached(initial, rules, iteration as nat),
            storage.set_of(&frontier).subset_of(storage.set_of(&states)),
            step(storage.set_of(&states).difference(storage.set_of(&frontier)), rules).subset_of(
                storage.set_of(&states),
            ),
            iteration >= 1 ==> storage.set_of(&frontier) == storage.set_of(&states).difference(
                reached(initial, rules, (iteration - 1) as nat),
            ),
            forall|rounds: nat|
                rounds + 1 < iteration ==> !closed(#[trigger] reached(initial, rules, rounds), rules),
        ensures
            storage.wf(),
            storage.collects() == old(storage).collects(),
            storage.reports() == old(storage).reports(),
            frontier.slot() != states.slot(),
            storage.handles() == old(storage).handles().insert(
                frontier.slot(),
                (frontier.index(), storage.tree_of(&frontier)),
            ).insert(states.slot(), (states.index(), storage.tree_of(&states))),
            !old(storage).handles().contains_key(frontier.slot()),
            !old(storage).handles().contains_key(states.slot()),
            storage.set_of(&states) == reached(initial, rules, iteration as nat),
            iteration == u64::MAX || closed(storage.set_of(&states), rules),
            iteration == u64::MAX ==> forall|rounds: nat|
                rounds + 1 < u64::MAX ==> !closed(#[trigger] reached(initial, rules, rounds), rules),
        decreases u64::MAX - iteration,
    {
        let ghost s = storage.set_of(&states);
        let ghost t = storage.set_of(&frontier);
        let ghost ts = storage.tree_of(&states);
        let ghost tt = storage.tree_of(&frontier);
        if storage.is_empty_set(&frontier) {
            proof {
                assert(s.difference(t) =~= s);
            }
            break ;
        }
        if iteration == u64::MAX {
            break ;
        }
        proof {
            crate::tree::lemma_first_vector(tt);
            let x = first_vector(tt);
            assert(t.contains(x));
            if iteration >= 1 {
                let before = reached(initial, rules, (iteration - 1) as nat);
                assert(s.contains(x) && !before.contains(x));
                assert(step(before, rules).contains(x));
            }
            let held = *storage;
            assert(held.preserves(old(storage)));
            lemma_ready(old(storage), &held, transitions@, length);
        }
        let found = successors_within(storage, &frontier, transitions, Ghost(length));
        let ghost n = storage.set_of(&found);
        let ghost t1 = storage.tree_of(&found);
        let fresh = minus(storage, &found, &states);
        storage.release(frontier);
        storage.release(found);
        frontier = fresh;
        let ghost tf = storage.tree_of(&frontier);
        proof {
            assert forall|x: Vector| denote(tf).contains(x) implies x.len() == length by {
                assert(n.contains(x));
                crate::tree::lemma_uniform_length(t1, x);
            }
            lemma_level(tf, length);
        }
        let next = union(storage, &states, &frontier);
        storage.release(states);
        states = next;
        proof {
            let tn = storage.tree_of(&states);
            assert forall|x: Vector| denote(tn).contains(x) implies x.len() == length by {
                if s.contains(x) {
                    crate::tree::lemma_uniform_length(ts, x);
                } else {
                    crate::tree::lemma_uniform_length(tf, x);
                }
            }
            lemma_level(tn, length);
            lemma_round(initial, rules, iteration as nat, s, t, n);
            assert(storage.handles() =~= old(storage).handles().insert(
                frontier.slot(),
                (frontier.index(), tf),
            ).insert(states.slot(), (states.index(), tn)));
        }
        iteration += 1;
    }
    let result = if iteration == u64::MAX && !storage.is_empty_set(&frontier) {
        None
    } else {
        proof {
            let s = storage.set_of(&states);
            let t = storage.set_of(&frontier);
            if iteration == u64::MAX {
                assert(s.difference(t) =~= s) by {
                    storage.lemma_handle(&frontier);
                }
            }
        }
        checked_len(storage, &states)
    };
    storage.release(frontier);
    storage.release(states);
    proof {
        assert(storage.handles() =~= old(storage).handles());
    }
    result
}

} // verus!
