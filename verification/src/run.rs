//! A walk driven by a filesystem, and the theorem that it ends with the
//! trees that the recursive definition of the walk gives.

use vstd::prelude::*;
use crate::dir::Tree;
use crate::machine::{
    below, entries_of, first_broken, graft, kid_count, listed_paths, offspring, rebuild,
    settle_level, stat_level, Answers, Ask, Slot, WalkState,
};
use crate::model::{
    branch, breaks, breaks_any, descends, lemma_breaks_any_add, lemma_walk_all_each, metadata_of,
    walk, walk_all, ListAnswer, StatAnswer, World,
};

verus! {

/// The answers of `world` to the metadata queries for `paths`.
pub open spec fn stat_answers(world: World, paths: Seq<Seq<u8>>) -> Seq<StatAnswer> {
    Seq::new(paths.len(), |i: int| (world.stat)(paths[i]))
}

/// The answers of `world` to the listings of `paths`.
pub open spec fn list_answers(world: World, paths: Seq<Seq<u8>>) -> Seq<ListAnswer> {
    Seq::new(paths.len(), |i: int| (world.list)(paths[i]))
}

/// What `world` answers to a request of the walk.
pub open spec fn reply(world: World, ask: Ask) -> Answers {
    match ask {
        Ask::Stat(paths) => Answers::Stat(stat_answers(world, paths)),
        Ask::List(paths) => Answers::List(list_answers(world, paths)),
        Ask::Nothing => Answers::Stat(Seq::empty()),
    }
}

/// The walk after at most `rounds` requests, each answered by `world`.
pub open spec fn drive(world: World, state: WalkState, rounds: nat) -> WalkState
    decreases rounds,
{
    if rounds == 0 || state.request() is Nothing {
        state
    } else {
        drive(world, state.advance(reply(world, state.request())), (rounds - 1) as nat)
    }
}

/// The walk of `roots` to `depth`, every request answered by `world`, after
/// as many rounds as a walk of that depth can take.
pub open spec fn walked(world: World, roots: Seq<Seq<u8>>, depth: nat) -> WalkState {
    drive(world, WalkState::start(roots, depth), 2 * depth + 1)
}

/// The listings that `world` gives for the listed entries of `level`.
pub open spec fn listings(world: World, level: Seq<Slot>, budget: nat) -> Seq<ListAnswer> {
    list_answers(world, listed_paths(level, budget))
}

/// The level of a frontier without its last path is the level without its
/// last entry.
proof fn lemma_stat_level_drop_last(frontier: Seq<Seq<u8>>, found: Seq<StatAnswer>)
    requires
        frontier.len() > 0,
        found.len() == frontier.len(),
    ensures
        stat_level(frontier, found).drop_last() == stat_level(
            frontier.drop_last(),
            found.drop_last(),
        ),
        stat_level(frontier, found).last() == (Slot {
            path: frontier.last(),
            metadata: metadata_of(found.last()),
            kids: None,
        }),
{
}

/// The listings of a level are those of the level without its last entry,
/// and then the listing of that entry where it is listed.
proof fn lemma_listings_drop_last(world: World, level: Seq<Slot>, budget: nat)
    requires
        level.len() > 0,
    ensures
        descends(level.last().metadata, budget) ==> {
            &&& listings(world, level, budget).len() > 0
            &&& listings(world, level, budget).drop_last() == listings(
                world,
                level.drop_last(),
                budget,
            )
            &&& listings(world, level, budget).last() == (world.list)(level.last().path)
        },
        !descends(level.last().metadata, budget) ==> listings(world, level, budget) == listings(
            world,
            level.drop_last(),
            budget,
        ),
{
}

/// `walk_all` over two sequences, one after the other.
pub proof fn lemma_walk_all_add(
    world: World,
    left: Seq<Seq<u8>>,
    right: Seq<Seq<u8>>,
    depth: nat,
)
    ensures
        walk_all(world, left + right, depth) == match (
            walk_all(world, left, depth),
            walk_all(world, right, depth),
        ) {
            (Some(l), Some(r)) => Some(l + r),
            _ => None,
        },
    decreases right.len(),
{
    if right.len() > 0 {
        lemma_walk_all_add(world, left, right.drop_last(), depth);
        assert((left + right).drop_last() =~= left + right.drop_last());
    }
}

/// What one level of the walk owes to the recursive definition: where a
/// listing of the level breaks there are no trees; else the trees of the
/// level are its settled entries grafted onto the trees of the level below.
spec fn level_agrees(world: World, frontier: Seq<Seq<u8>>, budget: nat) -> bool {
    let level = stat_level(frontier, stat_answers(world, frontier));
    let told = listings(world, level, budget);
    let next = offspring(level, told, budget);
    match first_broken(told) {
        Some(_) => walk_all(world, frontier, budget) is None,
        None => walk_all(world, frontier, budget) == match walk_all(world, next, below(budget)) {
            Some(lower) => Some(graft(settle_level(level, told, budget), lower)),
            None => None,
        },
    }
}

/// Every level agrees with the recursive definition. By induction on the
/// frontier, from its last path.
proof fn lemma_level(world: World, frontier: Seq<Seq<u8>>, budget: nat)
    ensures
        level_agrees(world, frontier, budget),
    decreases frontier.len(),
{
    if frontier.len() > 0 {
        let found = stat_answers(world, frontier);
        let level = stat_level(frontier, found);
        let told = listings(world, level, budget);
        let next = offspring(level, told, budget);
        let settled = settle_level(level, told, budget);
        let deeper = below(budget);
        let front = frontier.drop_last();
        let path = frontier.last();
        lemma_level(world, front, budget);
        assert(found.drop_last() =~= stat_answers(world, front));
        lemma_stat_level_drop_last(frontier, found);
        lemma_listings_drop_last(world, level, budget);
        let told_front = listings(world, level.drop_last(), budget);
        let next_front = offspring(level.drop_last(), told_front, budget);
        let settled_front = settle_level(level.drop_last(), told_front, budget);
        if !descends(level.last().metadata, budget) {
            if first_broken(told) is None && walk_all(world, next, deeper) is Some {
                let lower = walk_all(world, next, deeper)->0;
                assert(lower.take(lower.len() as int) =~= lower);
                assert(settled.drop_last() =~= settled_front);
            }
        } else if first_broken(told) is None {
            let answer = (world.list)(path);
            lemma_walk_all_add(world, next_front, entries_of(answer), deeper);
            match answer {
                ListAnswer::Entries(entries) => {
                    assert(walk(world, path, budget) == match walk_all(world, entries, deeper) {
                        Some(kids) => Some(branch(path, level.last().metadata, kids)),
                        None => None,
                    });
                    if walk_all(world, next, deeper) is Some {
                        let lower = walk_all(world, next, deeper)->0;
                        lemma_walk_all_each(world, entries, deeper);
                        let cut = lower.len() - kid_count(settled.last());
                        assert(lower.take(cut) =~= walk_all(world, next_front, deeper)->0);
                        assert(lower.skip(cut) =~= walk_all(world, entries, deeper)->0);
                        assert(settled.drop_last() =~= settled_front);
                    }
                },
                ListAnswer::Refused(_) => {
                    if walk_all(world, next, deeper) is Some {
                        let lower = walk_all(world, next, deeper)->0;
                        assert(lower.take(lower.len() as int) =~= lower);
                        assert(settled.drop_last() =~= settled_front);
                    }
                },
                ListAnswer::Broken(_) => {},
            }
        }
    }
}

/// A listing of the level that breaks is a listing that the walk of the
/// frontier asks for.
proof fn lemma_level_breaks(world: World, frontier: Seq<Seq<u8>>, budget: nat)
    ensures
        ({
            let level = stat_level(frontier, stat_answers(world, frontier));
            first_broken(listings(world, level, budget)) matches Some(reason) ==> breaks_any(
                world,
                frontier,
                budget,
                reason,
            )
        }),
    decreases frontier.len(),
{
    if frontier.len() > 0 {
        let found = stat_answers(world, frontier);
        let level = stat_level(frontier, found);
        let told = listings(world, level, budget);
        let told_front = listings(world, level.drop_last(), budget);
        lemma_level_breaks(world, frontier.drop_last(), budget);
        assert(found.drop_last() =~= stat_answers(world, frontier.drop_last()));
        lemma_stat_level_drop_last(frontier, found);
        lemma_listings_drop_last(world, level, budget);
        if let Some(reason) = first_broken(told) {
            if descends(level.last().metadata, budget) {
                if first_broken(told_front) is Some {
                    assert(breaks_any(world, frontier.drop_last(), budget, reason));
                } else {
                    assert((world.list)(frontier.last()) == ListAnswer::Broken(reason));
                    assert(breaks(world, frontier.last(), budget, reason));
                }
            } else {
                assert(breaks_any(world, frontier.drop_last(), budget, reason));
            }
        }
    }
}

/// What breaks the walk of the level below breaks the walk of the frontier.
proof fn lemma_level_passes_breaks(
    world: World,
    frontier: Seq<Seq<u8>>,
    budget: nat,
    reason: Seq<char>,
)
    requires
        ({
            let level = stat_level(frontier, stat_answers(world, frontier));
            let told = listings(world, level, budget);
            breaks_any(world, offspring(level, told, budget), below(budget), reason)
        }),
    ensures
        breaks_any(world, frontier, budget, reason),
    decreases frontier.len(),
{
    if frontier.len() > 0 {
        let found = stat_answers(world, frontier);
        let level = stat_level(frontier, found);
        let told = listings(world, level, budget);
        let front = frontier.drop_last();
        assert(found.drop_last() =~= stat_answers(world, front));
        lemma_stat_level_drop_last(frontier, found);
        lemma_listings_drop_last(world, level, budget);
        let told_front = listings(world, level.drop_last(), budget);
        let next_front = offspring(level.drop_last(), told_front, budget);
        if descends(level.last().metadata, budget) {
            let entries = entries_of((world.list)(frontier.last()));
            lemma_breaks_any_add(world, next_front, entries, below(budget), reason);
            if breaks_any(world, next_front, below(budget), reason) {
                lemma_level_passes_breaks(world, front, budget, reason);
            } else {
                assert(breaks(world, frontier.last(), budget, reason));
            }
        } else {
            lemma_level_passes_breaks(world, front, budget, reason);
        }
    }
}

/// With nothing listed there is no level below.
proof fn lemma_offspring_of_none(level: Seq<Slot>, told: Seq<ListAnswer>, budget: nat)
    requires
        listed_paths(level, budget).len() == 0,
    ensures
        offspring(level, told, budget).len() == 0,
        settle_level(level, told, budget) == level,
    decreases level.len(),
{
    if level.len() > 0 {
        lemma_offspring_of_none(level.drop_last(), told, budget);
    }
}

/// Something is listed only while the budget lasts.
proof fn lemma_listed_needs_budget(level: Seq<Slot>, budget: nat)
    requires
        listed_paths(level, budget).len() > 0,
    ensures
        budget > 0,
    decreases level.len(),
{
    if level.len() > 0 && !descends(level.last().metadata, budget) {
        lemma_listed_needs_budget(level.drop_last(), budget);
    }
}

/// A walk that stands before a level, driven by `world` for as many rounds
/// as its budget can take, ends with the trees that the recursive definition
/// gives for that level, rebuilt through the settled levels; or, where that
/// definition gives none, it ends failed.
proof fn lemma_drive(world: World, state: WalkState, rounds: nat)
    requires
        state.stage is Stat,
        rounds >= 2 * state.budget + 1,
    ensures
        match walk_all(world, state.stage->Stat_0, state.budget) {
            Some(lower) => drive(world, state, rounds).outcome() == Some(
                Ok::<Seq<Tree>, Seq<char>>(rebuild(state.settled, lower)),
            ),
            None => drive(world, state, rounds).outcome() matches Some(Err(reason))
                && breaks_any(world, state.stage->Stat_0, state.budget, reason),
        },
    decreases state.budget,
{
    reveal_with_fuel(drive, 3);
    let frontier = state.stage->Stat_0;
    let budget = state.budget;
    let level = stat_level(frontier, stat_answers(world, frontier));
    let told = listings(world, level, budget);
    lemma_level(world, frontier, budget);
    lemma_level_breaks(world, frontier, budget);
    let after_stat = state.advance(reply(world, state.request()));
    if listed_paths(level, budget).len() == 0 {
        lemma_offspring_of_none(level, told, budget);
        assert(after_stat.settled.drop_last() =~= state.settled);
    } else {
        lemma_listed_needs_budget(level, budget);
        let after_list = after_stat.advance(reply(world, after_stat.request()));
        if first_broken(told) is None {
            assert(after_list.settled.drop_last() =~= state.settled);
            let next = offspring(level, told, budget);
            if next.len() > 0 {
                lemma_drive(world, after_list, (rounds - 2) as nat);
                if walk_all(world, next, below(budget)) is None {
                    let reason = drive(world, state, rounds).outcome()->0->Err_0;
                    lemma_level_passes_breaks(world, frontier, budget, reason);
                }
            }
        }
    }
}

/// The walk that goes level by level, every request answered by `world`,
/// ends with the trees that the recursive definition of the walk gives for
/// its roots. Where that definition gives none, the walk ends failed, and
/// the reason it gives is that of a listing that the walk asks for and that
/// breaks.
pub proof fn theorem_walked(world: World, roots: Seq<Seq<u8>>, depth: nat)
    ensures
        match walk_all(world, roots, depth) {
            Some(trees) => walked(world, roots, depth).outcome() == Some(
                Ok::<Seq<Tree>, Seq<char>>(trees),
            ),
            None => walked(world, roots, depth).outcome() matches Some(Err(reason))
                && breaks_any(world, roots, depth, reason),
        },
{
    reveal_with_fuel(drive, 2);
    if roots.len() > 0 {
        lemma_drive(world, WalkState::start(roots, depth), 2 * depth + 1);
    }
}

} // verus!
