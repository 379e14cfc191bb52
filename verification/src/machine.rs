//! The walk as a machine that goes level by level: it asks for the metadata
//! of a whole level, then for the listings of its directories, and so on
//! down, and in the end rebuilds the trees from the levels it has settled.
//! All of it is mathematics; [`crate::walker::Walker`] is the machine that
//! runs.

use vstd::prelude::*;
use crate::dir::Tree;
use crate::metadata::MetadataModel;
use crate::model::{descends, metadata_of, ListAnswer, StatAnswer};
use crate::path::text_of;

verus! {

/// One entry of a level of the walk: its path, what is recorded of it, and,
/// once its listing is in, how many entries the level below holds for it.
pub struct Slot {
    pub path: Seq<u8>,
    pub metadata: MetadataModel,
    pub kids: Option<nat>,
}

/// Where a walk stands.
pub enum Stage {
    /// The metadata of these paths, the next level, is wanted.
    Stat(Seq<Seq<u8>>),
    /// The level has its metadata; the listings of its directories are wanted.
    List(Seq<Slot>),
    /// Every level is settled.
    Done,
    /// A listing broke part way, with the reason.
    Failed(Seq<char>),
}

/// What a walk wants to be told next.
pub enum Ask {
    /// The metadata of each of these paths.
    Stat(Seq<Seq<u8>>),
    /// The listing of each of these directories.
    List(Seq<Seq<u8>>),
    /// Nothing: the walk has ended.
    Nothing,
}

/// What a walk is told: one answer for each path it asked about, in order.
pub enum Answers {
    Stat(Seq<StatAnswer>),
    List(Seq<ListAnswer>),
}

/// The state of a walk that goes level by level: the levels it has settled,
/// top first, where it stands, and how many levels it may still go down.
pub struct WalkState {
    pub settled: Seq<Seq<Slot>>,
    pub stage: Stage,
    pub budget: nat,
}

/// The budget one level further down.
pub open spec fn below(budget: nat) -> nat {
    if budget > 0 {
        (budget - 1) as nat
    } else {
        0
    }
}

/// The level made of `frontier`, each path with the metadata that its
/// answer gives and no listing yet.
pub open spec fn stat_level(frontier: Seq<Seq<u8>>, answers: Seq<StatAnswer>) -> Seq<Slot> {
    Seq::new(
        frontier.len(),
        |i: int| Slot { path: frontier[i], metadata: metadata_of(answers[i]), kids: None },
    )
}

/// The paths of the entries of `level` that are listed with `budget` levels
/// left, in order.
pub open spec fn listed_paths(level: Seq<Slot>, budget: nat) -> Seq<Seq<u8>>
    decreases level.len(),
{
    if level.len() == 0 {
        Seq::empty()
    } else {
        let before = listed_paths(level.drop_last(), budget);
        if descends(level.last().metadata, budget) {
            before.push(level.last().path)
        } else {
            before
        }
    }
}

/// The reason of the first listing among `answers` that broke, if one did.
pub open spec fn first_broken(answers: Seq<ListAnswer>) -> Option<Seq<char>>
    decreases answers.len(),
{
    if answers.len() == 0 {
        None
    } else {
        match first_broken(answers.drop_last()) {
            Some(reason) => Some(reason),
            None => match answers.last() {
                ListAnswer::Broken(reason) => Some(reason),
                _ => None,
            },
        }
    }
}

/// The entries that a listing gave: none unless it succeeded.
pub open spec fn entries_of(answer: ListAnswer) -> Seq<Seq<u8>> {
    match answer {
        ListAnswer::Entries(entries) => entries,
        _ => Seq::empty(),
    }
}

/// An entry once its listing is in: it counts its entries, or, where the
/// directory could not be opened, its metadata becomes the failure.
pub open spec fn settle(slot: Slot, answer: ListAnswer) -> Slot {
    match answer {
        ListAnswer::Entries(entries) => Slot { kids: Some(entries.len()), ..slot },
        ListAnswer::Refused(reason) => Slot { metadata: MetadataModel::failed(reason), ..slot },
        ListAnswer::Broken(_) => slot,
    }
}

/// The level once the listings are in: `answers` holds one answer for each
/// listed entry, in order; the other entries stay as they are.
pub open spec fn settle_level(level: Seq<Slot>, answers: Seq<ListAnswer>, budget: nat) -> Seq<Slot>
    decreases level.len(),
{
    if level.len() == 0 {
        Seq::empty()
    } else if descends(level.last().metadata, budget) {
        settle_level(level.drop_last(), answers.drop_last(), budget).push(
            settle(level.last(), answers.last()),
        )
    } else {
        settle_level(level.drop_last(), answers, budget).push(level.last())
    }
}

/// The paths of the level below: the entries of each listing, in order.
pub open spec fn offspring(level: Seq<Slot>, answers: Seq<ListAnswer>, budget: nat) -> Seq<Seq<u8>>
    decreases level.len(),
{
    if level.len() == 0 {
        Seq::empty()
    } else if descends(level.last().metadata, budget) {
        offspring(level.drop_last(), answers.drop_last(), budget) + entries_of(answers.last())
    } else {
        offspring(level.drop_last(), answers, budget)
    }
}

/// How many entries of the level below belong to `slot`.
pub open spec fn kid_count(slot: Slot) -> nat {
    match slot.kids {
        Some(n) => n,
        None => 0,
    }
}

/// The tree of a settled entry whose children, if it was listed, are `kids`.
pub open spec fn plant(slot: Slot, kids: Seq<Tree>) -> Tree {
    Tree {
        path: text_of(slot.path),
        metadata: Some(slot.metadata),
        children: match slot.kids {
            Some(_) => Some(kids),
            None => None,
        },
    }
}

/// The trees of a settled level, given the trees of the level below: each
/// entry takes as many of them as it counted, in order.
pub open spec fn graft(level: Seq<Slot>, below: Seq<Tree>) -> Seq<Tree>
    decreases level.len(),
{
    if level.len() == 0 {
        Seq::empty()
    } else {
        let cut = below.len() - kid_count(level.last());
        graft(level.drop_last(), below.take(cut)).push(plant(level.last(), below.skip(cut)))
    }
}

/// The trees of the top level, given the settled levels, top first, and the
/// trees of the level below the last of them.
pub open spec fn rebuild(settled: Seq<Seq<Slot>>, below: Seq<Tree>) -> Seq<Tree>
    decreases settled.len(),
{
    if settled.len() == 0 {
        below
    } else {
        rebuild(settled.drop_last(), graft(settled.last(), below))
    }
}

impl WalkState {
    /// A walk of `roots`, each to be followed `depth` levels down. With no
    /// root there is nothing to ask and the walk is done.
    pub open spec fn start(roots: Seq<Seq<u8>>, depth: nat) -> WalkState {
        WalkState {
            settled: Seq::empty(),
            stage: if roots.len() == 0 {
                Stage::Done
            } else {
                Stage::Stat(roots)
            },
            budget: depth,
        }
    }

    /// What the walk wants to be told next.
    pub open spec fn request(self) -> Ask {
        match self.stage {
            Stage::Stat(frontier) => Ask::Stat(frontier),
            Stage::List(level) => Ask::List(listed_paths(level, self.budget)),
            Stage::Done => Ask::Nothing,
            Stage::Failed(_) => Ask::Nothing,
        }
    }

    /// Whether `answers` is of the kind that the walk asked for, with one
    /// answer for each path.
    pub open spec fn accepts(self, answers: Answers) -> bool {
        match (self.stage, answers) {
            (Stage::Stat(frontier), Answers::Stat(found)) => found.len() == frontier.len(),
            (Stage::List(level), Answers::List(listings)) => listings.len() == listed_paths(
                level,
                self.budget,
            ).len(),
            _ => false,
        }
    }

    /// The walk after it was told `answers`. Answers that it did not ask
    /// for change nothing.
    ///
    /// After the metadata of a level: where no entry of it is to be listed,
    /// the level is settled and the walk is done; else the listings are
    /// wanted. After the listings: where one broke, the walk has failed with
    /// the reason of the first such; else the level is settled, and the
    /// entries listed form the next level, one level further down, or,
    /// where there are none, the walk is done.
    pub open spec fn advance(self, answers: Answers) -> WalkState {
        match (self.stage, answers) {
            (Stage::Stat(frontier), Answers::Stat(found)) if found.len() == frontier.len() => {
                let level = stat_level(frontier, found);
                if listed_paths(level, self.budget).len() == 0 {
                    WalkState { settled: self.settled.push(level), stage: Stage::Done, ..self }
                } else {
                    WalkState { stage: Stage::List(level), ..self }
                }
            },
            (Stage::List(level), Answers::List(listings)) if listings.len() == listed_paths(
                level,
                self.budget,
            ).len() => {
                match first_broken(listings) {
                    Some(reason) => WalkState { stage: Stage::Failed(reason), ..self },
                    None => {
                        let next = offspring(level, listings, self.budget);
                        WalkState {
                            settled: self.settled.push(
                                settle_level(level, listings, self.budget),
                            ),
                            stage: if next.len() == 0 {
                                Stage::Done
                            } else {
                                Stage::Stat(next)
                            },
                            budget: below(self.budget),
                        }
                    },
                }
            },
            _ => self,
        }
    }

    /// What the walk has produced: the trees of its roots once it is done,
    /// the reason once it has failed, nothing before.
    pub open spec fn outcome(self) -> Option<Result<Seq<Tree>, Seq<char>>> {
        match self.stage {
            Stage::Done => Some(Ok(rebuild(self.settled, Seq::empty()))),
            Stage::Failed(reason) => Some(Err(reason)),
            _ => None,
        }
    }
}

/// How many entries of the level below belong to the entries of `level`.
pub open spec fn total_kids(level: Seq<Slot>) -> nat
    decreases level.len(),
{
    if level.len() == 0 {
        0
    } else {
        total_kids(level.drop_last()) + kid_count(level.last())
    }
}

/// No entry of `level` has a listing yet.
pub open spec fn unlisted(level: Seq<Slot>) -> bool {
    forall|i: int| 0 <= i < level.len() ==> (#[trigger] level[i]).kids is None
}

/// Each settled level counts exactly the entries of the level below it, and
/// the last of them counts `width` entries.
pub open spec fn linked(settled: Seq<Seq<Slot>>, width: nat) -> bool
    decreases settled.len(),
{
    if settled.len() == 0 {
        true
    } else {
        total_kids(settled.last()) == width && linked(settled.drop_last(), settled.last().len())
    }
}

impl WalkState {
    /// The settled levels fit one onto the other and onto the level that
    /// the walk stands at.
    pub open spec fn well_formed(self) -> bool {
        match self.stage {
            Stage::Stat(frontier) => linked(self.settled, frontier.len()),
            Stage::List(level) => linked(self.settled, level.len()) && unlisted(level),
            Stage::Done => linked(self.settled, 0),
            Stage::Failed(_) => true,
        }
    }
}

/// A level without listings counts no entries below it.
pub proof fn lemma_unlisted_counts_none(level: Seq<Slot>)
    requires
        unlisted(level),
    ensures
        total_kids(level) == 0,
    decreases level.len(),
{
    if level.len() > 0 {
        assert(level.last() == level[level.len() - 1]);
        assert forall|i: int| 0 <= i < level.drop_last().len() implies (#[trigger] level.drop_last()[i]).kids is None by {
            assert(level.drop_last()[i] == level[i]);
        }
        lemma_unlisted_counts_none(level.drop_last());
    }
}

/// The listed paths of a shorter level are no more than those of the level.
pub proof fn lemma_listed_grows(level: Seq<Slot>, budget: nat, upto: int)
    requires
        0 <= upto <= level.len(),
    ensures
        listed_paths(level.take(upto), budget).len() <= listed_paths(level, budget).len(),
    decreases level.len() - upto,
{
    if upto < level.len() {
        lemma_listed_grows(level, budget, upto + 1);
        assert(level.take(upto + 1).drop_last() =~= level.take(upto));
    } else {
        assert(level.take(upto) =~= level);
    }
}

/// A settled level has as many entries as it had, and counts as many
/// entries below it as its listings gave.
pub proof fn lemma_settled_level(level: Seq<Slot>, told: Seq<ListAnswer>, budget: nat)
    requires
        unlisted(level),
    ensures
        settle_level(level, told, budget).len() == level.len(),
        total_kids(settle_level(level, told, budget)) == offspring(level, told, budget).len(),
    decreases level.len(),
{
    if level.len() > 0 {
        let front = level.drop_last();
        assert(level.last() == level[level.len() - 1]);
        assert forall|i: int| 0 <= i < front.len() implies (#[trigger] front[i]).kids is None by {
            assert(front[i] == level[i]);
        }
        let settled = settle_level(level, told, budget);
        if descends(level.last().metadata, budget) {
            lemma_settled_level(front, told.drop_last(), budget);
            assert(settled.drop_last() =~= settle_level(front, told.drop_last(), budget));
        } else {
            lemma_settled_level(front, told, budget);
            assert(settled.drop_last() =~= settle_level(front, told, budget));
        }
    }
}

/// Whatever a well-formed walk is told, it stays well formed.
pub proof fn lemma_advance_well_formed(state: WalkState, answers: Answers)
    requires
        state.well_formed(),
    ensures
        state.advance(answers).well_formed(),
{
    let next = state.advance(answers);
    match (state.stage, answers) {
        (Stage::Stat(frontier), Answers::Stat(found)) => {
            if found.len() == frontier.len() {
                let level = stat_level(frontier, found);
                lemma_unlisted_counts_none(level);
                if listed_paths(level, state.budget).len() == 0 {
                    assert(next.settled.drop_last() =~= state.settled);
                }
            }
        },
        (Stage::List(level), Answers::List(told)) => {
            if told.len() == listed_paths(level, state.budget).len() && first_broken(told) is None {
                lemma_settled_level(level, told, state.budget);
                assert(next.settled.drop_last() =~= state.settled);
            }
        },
        _ => {},
    }
}

impl WalkState {
    /// How many roots the walk has, as long as it has not failed.
    pub open spec fn width(self) -> nat {
        if self.settled.len() > 0 {
            self.settled[0].len()
        } else {
            match self.stage {
                Stage::Stat(frontier) => frontier.len(),
                Stage::List(level) => level.len(),
                Stage::Done => 0,
                Stage::Failed(_) => 0,
            }
        }
    }
}

/// Trees grafted on a level are as many as its entries.
pub proof fn lemma_graft_len(level: Seq<Slot>, lower: Seq<Tree>)
    ensures
        graft(level, lower).len() == level.len(),
    decreases level.len(),
{
    if level.len() > 0 {
        let cut = lower.len() - kid_count(level.last());
        lemma_graft_len(level.drop_last(), lower.take(cut));
    }
}

/// Rebuilding through settled levels gives one tree for each entry of the
/// first of them.
pub proof fn lemma_rebuild_len(settled: Seq<Seq<Slot>>, lower: Seq<Tree>)
    ensures
        rebuild(settled, lower).len() == if settled.len() > 0 {
            settled[0].len()
        } else {
            lower.len()
        },
    decreases settled.len(),
{
    if settled.len() > 0 {
        lemma_graft_len(settled.last(), lower);
        lemma_rebuild_len(settled.drop_last(), graft(settled.last(), lower));
        if settled.len() > 1 {
            assert(settled.drop_last()[0] == settled[0]);
        }
    }
}

/// A walk that is done gives one tree for each of its roots.
pub proof fn lemma_outcome_len(state: WalkState)
    ensures
        state.outcome() matches Some(Ok(trees)) ==> trees.len() == state.width(),
{
    if state.stage is Done {
        lemma_rebuild_len(state.settled, Seq::empty());
    }
}

} // verus!
