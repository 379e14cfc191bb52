//! The walker: the machine of [`crate::machine`] on vectors and strings.
//! Whoever holds a [`Walker`] asks the filesystem what the walker requests,
//! every path of a request at once if they like, and hands back the
//! answers.

use vstd::prelude::*;
use crate::dir::{lemma_children_view, Dir, Tree};
use crate::machine::{
    first_broken, graft, lemma_advance_well_formed, lemma_graft_len, lemma_listed_grows,
    lemma_outcome_len, linked, listed_paths, offspring, plant, rebuild, settle, settle_level,
    stat_level, total_kids, Answers, Ask, Slot, Stage, WalkState,
};
use crate::metadata::{FileStat, Metadata};
use crate::model::{descends, metadata_of, ListAnswer, StatAnswer};
use crate::path::path_text;
use crate::views::{copy_path, copy_paths, lemma_bytes, lemma_pushed, lemma_stretch};

verus! {

/// The answer to one metadata query.
#[derive(Debug, PartialEq, Eq)]
pub enum StatOutcome {
    /// The entry exists and could be queried.
    Found(FileStat),
    /// The query failed, with the reason.
    Failed(String),
}

impl DeepView for StatOutcome {
    type V = StatAnswer;

    open spec fn deep_view(&self) -> StatAnswer {
        match self {
            StatOutcome::Found(stat) => StatAnswer::Found(*stat),
            StatOutcome::Failed(reason) => StatAnswer::Failed(reason@),
        }
    }
}

/// The answer to one listing.
#[derive(Debug, PartialEq, Eq)]
pub enum ListOutcome {
    /// The paths of the entries, in the order of the listing.
    Entries(Vec<Vec<u8>>),
    /// The directory could not be opened for listing, with the reason.
    Refused(String),
    /// Reading the opened listing failed part way, with the reason.
    Broken(String),
}

impl DeepView for ListOutcome {
    type V = ListAnswer;

    open spec fn deep_view(&self) -> ListAnswer {
        match self {
            ListOutcome::Entries(entries) => ListAnswer::Entries(entries.deep_view()),
            ListOutcome::Refused(reason) => ListAnswer::Refused(reason@),
            ListOutcome::Broken(reason) => ListAnswer::Broken(reason@),
        }
    }
}

/// What a walker wants to be told next.
#[derive(Debug, PartialEq, Eq)]
pub enum Request {
    /// The metadata of each of these paths.
    Stat(Vec<Vec<u8>>),
    /// The listing of each of these directories.
    List(Vec<Vec<u8>>),
    /// Nothing: the walk has ended.
    Nothing,
}

impl DeepView for Request {
    type V = Ask;

    open spec fn deep_view(&self) -> Ask {
        match self {
            Request::Stat(paths) => Ask::Stat(paths.deep_view()),
            Request::List(paths) => Ask::List(paths.deep_view()),
            Request::Nothing => Ask::Nothing,
        }
    }
}

/// What a walker is told: one answer for each path of its request, in order.
#[derive(Debug, PartialEq, Eq)]
pub enum Reply {
    Stat(Vec<StatOutcome>),
    List(Vec<ListOutcome>),
}

impl DeepView for Reply {
    type V = Answers;

    open spec fn deep_view(&self) -> Answers {
        match self {
            Reply::Stat(found) => Answers::Stat(found.deep_view()),
            Reply::List(told) => Answers::List(told.deep_view()),
        }
    }
}

/// One entry of a level, as the walker keeps it.
struct Node {
    path: Vec<u8>,
    metadata: Metadata,
    kids: Option<usize>,
}

impl DeepView for Node {
    type V = Slot;

    closed spec fn deep_view(&self) -> Slot {
        Slot {
            path: self.path.deep_view(),
            metadata: self.metadata@,
            kids: match self.kids {
                Some(n) => Some(n as nat),
                None => None,
            },
        }
    }
}

/// Where the walker stands.
enum Step {
    Stat(Vec<Vec<u8>>),
    List(Vec<Node>),
    Done,
    Failed(String),
}

impl DeepView for Step {
    type V = Stage;

    closed spec fn deep_view(&self) -> Stage {
        match self {
            Step::Stat(frontier) => Stage::Stat(frontier.deep_view()),
            Step::List(level) => Stage::List(level.deep_view()),
            Step::Done => Stage::Done,
            Step::Failed(reason) => Stage::Failed(reason@),
        }
    }
}

/// A walk of some roots to a given depth, level by level. It says what it
/// wants to know of the filesystem, takes the answers, and in the end gives
/// the trees of its roots. It never touches the filesystem itself.
pub struct Walker {
    settled: Vec<Vec<Node>>,
    step: Step,
    budget: usize,
}

impl View for Walker {
    type V = WalkState;

    closed spec fn view(&self) -> WalkState {
        WalkState {
            settled: self.settled.deep_view(),
            stage: self.step.deep_view(),
            budget: self.budget as nat,
        }
    }
}

/// Whether an entry with this metadata is listed with `budget` levels left.
fn wants_listing(metadata: &Metadata, budget: usize) -> (wanted: bool)
    ensures
        wanted == descends(metadata@, budget as nat),
{
    metadata.status && metadata.is_dir && !metadata.is_symlink && budget > 0
}

/// The paths of the entries of `level` that are to be listed.
fn listed(level: &Vec<Node>, budget: usize) -> (paths: Vec<Vec<u8>>)
    ensures
        paths.deep_view() == listed_paths(level.deep_view(), budget as nat),
{
    let mut paths: Vec<Vec<u8>> = Vec::new();
    let mut i: usize = 0;
    while i < level.len()
        invariant
            i <= level.len(),
            paths.deep_view() == listed_paths(level.deep_view().take(i as int), budget as nat),
        decreases level.len() - i,
    {
        proof {
            assert(level.deep_view().take(i + 1).drop_last() =~= level.deep_view().take(i as int));
        }
        if wants_listing(&level[i].metadata, budget) {
            let ghost before = paths;
            let path = copy_path(&level[i].path);
            paths.push(path);
            proof {
                lemma_pushed(before, paths, path);
            }
        }
        i += 1;
    }
    proof {
        assert(level.deep_view().take(level.len() as int) =~= level.deep_view());
    }
    paths
}

/// The metadata that an answer to a metadata query gives.
fn metadata_from(outcome: &StatOutcome) -> (metadata: Metadata)
    ensures
        metadata@ == metadata_of(outcome.deep_view()),
{
    match outcome {
        StatOutcome::Found(stat) => Metadata::new(stat),
        StatOutcome::Failed(reason) => Metadata::error(reason.clone()),
    }
}

/// The level made of `frontier` and the answers to its metadata queries.
fn stat_nodes(frontier: &Vec<Vec<u8>>, found: &Vec<StatOutcome>) -> (level: Vec<Node>)
    requires
        found.len() == frontier.len(),
    ensures
        level.deep_view() == stat_level(frontier.deep_view(), found.deep_view()),
{
    let mut level: Vec<Node> = Vec::new();
    let mut i: usize = 0;
    while i < frontier.len()
        invariant
            i <= frontier.len(),
            found.len() == frontier.len(),
            level.deep_view() == stat_level(
                frontier.deep_view().take(i as int),
                found.deep_view().take(i as int),
            ),
        decreases frontier.len() - i,
    {
        let ghost before = level;
        let node = Node {
            path: copy_path(&frontier[i]),
            metadata: metadata_from(&found[i]),
            kids: None,
        };
        level.push(node);
        proof {
            lemma_pushed(before, level, node);
            assert(level.deep_view() =~= stat_level(
                frontier.deep_view().take(i + 1),
                found.deep_view().take(i + 1),
            ));
        }
        i += 1;
    }
    proof {
        assert(frontier.deep_view().take(frontier.len() as int) =~= frontier.deep_view());
        assert(found.deep_view().take(found.len() as int) =~= found.deep_view());
    }
    level
}

/// How many entries of `level` are to be listed.
fn count_listed(level: &Vec<Node>, budget: usize) -> (count: usize)
    ensures
        count == listed_paths(level.deep_view(), budget as nat).len(),
{
    let mut count: usize = 0;
    let mut i: usize = 0;
    while i < level.len()
        invariant
            i <= level.len(),
            count <= i,
            count == listed_paths(level.deep_view().take(i as int), budget as nat).len(),
        decreases level.len() - i,
    {
        proof {
            assert(level.deep_view().take(i + 1).drop_last() =~= level.deep_view().take(i as int));
        }
        if wants_listing(&level[i].metadata, budget) {
            count += 1;
        }
        i += 1;
    }
    proof {
        assert(level.deep_view().take(level.len() as int) =~= level.deep_view());
    }
    count
}

/// A listing that broke within the first `upto` answers is the first that
/// broke among them all.
proof fn lemma_broken_stays(told: Seq<ListAnswer>, upto: int, reason: Seq<char>)
    requires
        0 <= upto <= told.len(),
        first_broken(told.take(upto)) == Some(reason),
    ensures
        first_broken(told) == Some(reason),
    decreases told.len() - upto,
{
    if upto < told.len() {
        assert(told.take(upto + 1).drop_last() =~= told.take(upto));
        lemma_broken_stays(told, upto + 1, reason);
    } else {
        assert(told.take(upto) =~= told);
    }
}

/// The reason of the first listing among `told` that broke, if one did.
fn find_broken(told: &Vec<ListOutcome>) -> (reason: Option<String>)
    ensures
        reason.deep_view() == first_broken(told.deep_view()),
{
    let mut i: usize = 0;
    while i < told.len()
        invariant
            i <= told.len(),
            first_broken(told.deep_view().take(i as int)) is None,
        decreases told.len() - i,
    {
        proof {
            assert(told.deep_view().take(i + 1).drop_last() =~= told.deep_view().take(i as int));
        }
        match &told[i] {
            ListOutcome::Broken(reason) => {
                proof {
                    lemma_broken_stays(told.deep_view(), i + 1, reason@);
                }
                return Some(reason.clone());
            },
            _ => {},
        }
        i += 1;
    }
    proof {
        assert(told.deep_view().take(told.len() as int) =~= told.deep_view());
    }
    None
}

/// Adds copies of `entries` at the end of `paths`.
fn extend_paths(paths: &mut Vec<Vec<u8>>, entries: &Vec<Vec<u8>>)
    ensures
        final(paths).deep_view() == old(paths).deep_view() + entries.deep_view(),
{
    let mut k: usize = 0;
    while k < entries.len()
        invariant
            k <= entries.len(),
            paths.deep_view() == old(paths).deep_view() + entries.deep_view().take(k as int),
        decreases entries.len() - k,
    {
        let ghost before = *paths;
        let path = copy_path(&entries[k]);
        paths.push(path);
        proof {
            lemma_pushed(before, *paths, path);
            assert(old(paths).deep_view() + entries.deep_view().take(k + 1) =~= (old(
                paths,
            ).deep_view() + entries.deep_view().take(k as int)).push(path.deep_view()));
        }
        k += 1;
    }
    proof {
        assert(entries.deep_view().take(entries.len() as int) =~= entries.deep_view());
    }
}

/// The entry once the answer to its listing is in.
fn settle_node(node: &Node, outcome: &ListOutcome) -> (settled: Node)
    ensures
        settled.deep_view() == settle(node.deep_view(), outcome.deep_view()),
{
    match outcome {
        ListOutcome::Entries(entries) => Node {
            path: copy_path(&node.path),
            metadata: node.metadata.clone(),
            kids: Some(entries.len()),
        },
        ListOutcome::Refused(reason) => Node {
            path: copy_path(&node.path),
            metadata: Metadata::error(reason.clone()),
            kids: node.kids,
        },
        ListOutcome::Broken(_) => Node {
            path: copy_path(&node.path),
            metadata: node.metadata.clone(),
            kids: node.kids,
        },
    }
}

/// The level once the listings are in, and the paths of the level below.
fn settle_nodes(level: &Vec<Node>, told: &Vec<ListOutcome>, budget: usize) -> (result: (
    Vec<Node>,
    Vec<Vec<u8>>,
))
    requires
        told.len() == listed_paths(level.deep_view(), budget as nat).len(),
    ensures
        result.0.deep_view() == settle_level(level.deep_view(), told.deep_view(), budget as nat),
        result.1.deep_view() == offspring(level.deep_view(), told.deep_view(), budget as nat),
{
    let mut done: Vec<Node> = Vec::new();
    let mut next: Vec<Vec<u8>> = Vec::new();
    let mut i: usize = 0;
    let mut j: usize = 0;
    while i < level.len()
        invariant
            i <= level.len(),
            j <= told.len(),
            told.len() == listed_paths(level.deep_view(), budget as nat).len(),
            j == listed_paths(level.deep_view().take(i as int), budget as nat).len(),
            done.deep_view() == settle_level(
                level.deep_view().take(i as int),
                told.deep_view().take(j as int),
                budget as nat,
            ),
            next.deep_view() == offspring(
                level.deep_view().take(i as int),
                told.deep_view().take(j as int),
                budget as nat,
            ),
        decreases level.len() - i,
    {
        let ghost done_before = done;
        proof {
            assert(level.deep_view().take(i + 1).drop_last() =~= level.deep_view().take(i as int));
            lemma_listed_grows(level.deep_view(), budget as nat, i + 1);
        }
        if wants_listing(&level[i].metadata, budget) {
            proof {
                assert(told.deep_view().take(j + 1).drop_last() =~= told.deep_view().take(j as int));
            }
            let node = settle_node(&level[i], &told[j]);
            match &told[j] {
                ListOutcome::Entries(entries) => {
                    extend_paths(&mut next, entries);
                },
                _ => {
                    proof {
                        assert(next.deep_view() + Seq::<Seq<u8>>::empty() =~= next.deep_view());
                    }
                },
            }
            done.push(node);
            proof {
                lemma_pushed(done_before, done, node);
            }
            j += 1;
        } else {
            let node = Node {
                path: copy_path(&level[i].path),
                metadata: level[i].metadata.clone(),
                kids: level[i].kids,
            };
            done.push(node);
            proof {
                lemma_pushed(done_before, done, node);
            }
        }
        i += 1;
    }
    proof {
        assert(level.deep_view().take(level.len() as int) =~= level.deep_view());
        assert(told.deep_view().take(told.len() as int) =~= told.deep_view());
    }
    (done, next)
}

/// Why a walker has no trees to give.
#[derive(Debug, PartialEq, Eq)]
pub enum WalkError {
    /// The walk has not ended: it still has a request.
    Pending,
    /// A listing broke part way, with the reason.
    Broken(String),
}

/// The same elements, last first.
fn reversed<T>(items: Vec<T>) -> (turned: Vec<T>)
    ensures
        turned@ == items@.reverse(),
{
    let mut items = items;
    let ghost whole = items@;
    let mut turned: Vec<T> = Vec::new();
    while items.len() > 0
        invariant
            items@ == whole.take(items.len() as int),
            turned.len() + items.len() == whole.len(),
            forall|i: int| 0 <= i < turned.len() ==> turned@[i] == whole[whole.len() - 1 - i],
        decreases items.len(),
    {
        let item = items.pop().unwrap();
        turned.push(item);
        proof {
            assert(items@ =~= whole.take(items.len() as int));
        }
    }
    proof {
        assert(turned@ =~= whole.reverse());
    }
    turned
}

/// The trees of a settled level, given the trees of the level below.
fn graft_nodes(level: Vec<Node>, lower: Vec<Dir>) -> (trees: Vec<Dir>)
    requires
        total_kids(level.deep_view()) == lower.len(),
    ensures
        trees.deep_view() == graft(level.deep_view(), lower.deep_view()),
{
    let mut level = level;
    let mut lower = lower;
    let ghost goal = graft(level.deep_view(), lower.deep_view());
    let mut backwards: Vec<Dir> = Vec::new();
    proof {
        assert(backwards.deep_view().reverse() =~= Seq::<Tree>::empty());
        assert(goal + Seq::<Tree>::empty() =~= goal);
    }
    while level.len() > 0
        invariant
            total_kids(level.deep_view()) == lower.len(),
            goal == graft(level.deep_view(), lower.deep_view()) + backwards.deep_view().reverse(),
        decreases level.len(),
    {
        let ghost level_before = level;
        let ghost lower_before = lower;
        let ghost backwards_before = backwards;
        let node = level.pop().unwrap();
        proof {
            lemma_stretch(level_before, level, 0, level_before.len() - 1);
            assert(level.deep_view() =~= level_before.deep_view().drop_last());
            assert(node.deep_view() == level_before.deep_view().last());
            lemma_bytes(node.path);
        }
        let count = match node.kids {
            Some(n) => n,
            None => 0,
        };
        let cut = lower.len() - count;
        let kids = lower.split_off(cut);
        proof {
            lemma_stretch(lower_before, lower, 0, cut as int);
            lemma_stretch(lower_before, kids, cut as int, lower_before.len() as int);
            assert(lower.deep_view() =~= lower_before.deep_view().take(cut as int));
            assert(kids.deep_view() =~= lower_before.deep_view().skip(cut as int));
        }
        let dir = Dir {
            path: path_text(&node.path),
            metadata: Some(node.metadata),
            children: match node.kids {
                Some(_) => Some(kids),
                None => None,
            },
        };
        backwards.push(dir);
        proof {
            lemma_children_view(dir);
            lemma_pushed(backwards_before, backwards, dir);
            assert(dir.deep_view() == plant(node.deep_view(), kids.deep_view()));
            assert(backwards.deep_view().reverse() =~= seq![dir.deep_view()]
                + backwards_before.deep_view().reverse());
            assert(goal =~= graft(level.deep_view(), lower.deep_view())
                + backwards.deep_view().reverse());
        }
    }
    let trees = reversed(backwards);
    proof {
        assert(trees.deep_view() =~= backwards.deep_view().reverse());
        assert(backwards.deep_view().reverse() =~= goal);
    }
    trees
}

impl Walker {
    #[verifier::type_invariant]
    spec fn well_formed(self) -> bool {
        self@.well_formed()
    }

    /// A walker for `roots`, each to be followed `depth` levels down.
    pub fn start(roots: Vec<Vec<u8>>, depth: usize) -> (walker: Walker)
        ensures
            walker@ == WalkState::start(roots.deep_view(), depth as nat),
    {
        let step = if roots.len() == 0 {
            Step::Done
        } else {
            Step::Stat(roots)
        };
        let settled: Vec<Vec<Node>> = Vec::new();
        proof {
            assert(settled.deep_view() =~= Seq::<Seq<Slot>>::empty());
        }
        Walker { settled, step, budget: depth }
    }

    /// What the walker wants to be told next.
    pub fn request(&self) -> (request: Request)
        ensures
            request.deep_view() == self@.request(),
    {
        match &self.step {
            Step::Stat(frontier) => Request::Stat(copy_paths(frontier)),
            Step::List(level) => Request::List(listed(level, self.budget)),
            Step::Done => Request::Nothing,
            Step::Failed(_) => Request::Nothing,
        }
    }

    /// Whether `reply` answers the request of the walker: it is of the kind
    /// asked for and holds one answer for each path.
    pub fn accepts(&self, reply: &Reply) -> (accepted: bool)
        ensures
            accepted == self@.accepts(reply.deep_view()),
    {
        match &self.step {
            Step::Stat(frontier) => match reply {
                Reply::Stat(found) => found.len() == frontier.len(),
                Reply::List(_) => false,
            },
            Step::List(level) => match reply {
                Reply::List(told) => told.len() == count_listed(level, self.budget),
                Reply::Stat(_) => false,
            },
            Step::Done => false,
            Step::Failed(_) => false,
        }
    }

    /// The walker after it was told `reply`. A reply that it did not ask
    /// for, or one with another number of answers than it asked for, leaves
    /// it as it was.
    pub fn advance(self, reply: Reply) -> (next: Walker)
        ensures
            next@ == self@.advance(reply.deep_view()),
    {
        proof {
            use_type_invariant(&self);
            lemma_advance_well_formed(self@, reply.deep_view());
        }
        let Walker { settled, step, budget } = self;
        let mut settled = settled;
        let ghost settled_before = settled;
        match step {
            Step::Stat(frontier) => match reply {
                Reply::Stat(found) => {
                    if found.len() == frontier.len() {
                        let level = stat_nodes(&frontier, &found);
                        if count_listed(&level, budget) == 0 {
                            settled.push(level);
                            proof {
                                lemma_pushed(settled_before, settled, level);
                            }
                            Walker { settled, step: Step::Done, budget }
                        } else {
                            Walker { settled, step: Step::List(level), budget }
                        }
                    } else {
                        Walker { settled, step: Step::Stat(frontier), budget }
                    }
                },
                Reply::List(_) => Walker { settled, step: Step::Stat(frontier), budget },
            },
            Step::List(level) => match reply {
                Reply::List(told) => {
                    if told.len() == count_listed(&level, budget) {
                        match find_broken(&told) {
                            Some(reason) => Walker { settled, step: Step::Failed(reason), budget },
                            None => {
                                let (done, next) = settle_nodes(&level, &told, budget);
                                settled.push(done);
                                proof {
                                    lemma_pushed(settled_before, settled, done);
                                }
                                let step = if next.len() == 0 {
                                    Step::Done
                                } else {
                                    Step::Stat(next)
                                };
                                let budget = if budget > 0 {
                                    budget - 1
                                } else {
                                    0
                                };
                                Walker { settled, step, budget }
                            },
                        }
                    } else {
                        Walker { settled, step: Step::List(level), budget }
                    }
                },
                Reply::Stat(_) => Walker { settled, step: Step::List(level), budget },
            },
            Step::Done => Walker { settled, step: Step::Done, budget },
            Step::Failed(reason) => Walker { settled, step: Step::Failed(reason), budget },
        }
    }

    /// The trees of the roots, one for each and in their order, once the
    /// walk is done. A walk that has failed gives the reason, one that has
    /// not ended says so.
    pub fn finish(self) -> (result: Result<Vec<Dir>, WalkError>)
        ensures
            match self@.outcome() {
                Some(Ok(trees)) => result matches Ok(dirs) && dirs.deep_view() == trees
                    && dirs.len() == self@.width(),
                Some(Err(reason)) => result matches Err(WalkError::Broken(told)) && told@
                    == reason,
                None => result matches Err(WalkError::Pending),
            },
    {
        proof {
            use_type_invariant(&self);
            lemma_outcome_len(self@);
        }
        let Walker { settled, step, budget } = self;
        match step {
            Step::Done => {
                let mut settled = settled;
                let mut lower: Vec<Dir> = Vec::new();
                let ghost goal = rebuild(settled.deep_view(), Seq::<Tree>::empty());
                proof {
                    assert(lower.deep_view() =~= Seq::<Tree>::empty());
                }
                while settled.len() > 0
                    invariant
                        linked(settled.deep_view(), lower.len() as nat),
                        goal == rebuild(settled.deep_view(), lower.deep_view()),
                    decreases settled.len(),
                {
                    let ghost settled_before = settled;
                    let level = settled.pop().unwrap();
                    proof {
                        lemma_stretch(settled_before, settled, 0, settled_before.len() - 1);
                        assert(settled.deep_view() =~= settled_before.deep_view().drop_last());
                        assert(level.deep_view() == settled_before.deep_view().last());
                        lemma_graft_len(level.deep_view(), lower.deep_view());
                    }
                    lower = graft_nodes(level, lower);
                }
                Ok(lower)
            },
            Step::Failed(reason) => Err(WalkError::Broken(reason)),
            Step::Stat(_) => Err(WalkError::Pending),
            Step::List(_) => Err(WalkError::Pending),
        }
    }
}

} // verus!
