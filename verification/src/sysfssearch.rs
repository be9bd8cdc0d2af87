//! The discovery engine: one search per session, then queries over what it
//! collected.
//!
//! The engine does no reading and runs no command. Each of its steps says
//! what it needs next: the listing of a directory, or the properties of a
//! candidate path. The caller obtains that and hands it back. A listing or
//! a property block that cannot be had is handed back as absent or unusable
//! and skipped; it never ends the search.

use vstd::prelude::*;
use vstd::string::*;
use crate::matcher::{criteria_of, match_values, matched_values};
use crate::pathfinder::{
    candidates, lemma_done_outcome, lemma_feed_keeps_outcome, lemma_feed_shortens_walk,
    lemma_start_outcome, listing_of, visits_pending, DirEntry, EntryView, FinderView, PathFinder,
    Tree,
};
use crate::seqs::{lemma_filter_map_concat, lemma_filter_map_one};
use crate::utils::{usable_output, CommandResult, ResultView};

verus! {

/// What the engine needs next.
#[derive(Clone, Debug, PartialEq, Eq)]
pub enum Action {
    /// The listing of this directory.
    ReadDir(String),
    /// The properties of the device at this path.
    Query(String),
    /// Nothing: the search is over and holds this many property blocks.
    Done(usize),
}

/// The mathematical value of an [`Action`].
pub enum ActionView {
    ReadDir(Seq<char>),
    Query(Seq<char>),
    Done(nat),
}

impl View for Action {
    type V = ActionView;

    open spec fn view(&self) -> ActionView {
        match self {
            Action::ReadDir(dir) => ActionView::ReadDir(dir@),
            Action::Query(path) => ActionView::Query(path@),
            Action::Done(count) => ActionView::Done(*count as nat),
        }
    }
}

/// How far a search has come.
pub enum Progress {
    /// The tree is being walked.
    Walking(FinderView),
    /// The candidates are being asked about, in order; `asked` of them
    /// have been answered.
    Querying { candidates: Seq<Seq<char>>, asked: nat },
    /// The search has run.
    Populated,
}

/// The mathematical value of a [`SysfsSearch`].
pub struct SearchView {
    /// The root of the search.
    pub root: Seq<char>,
    /// The filter chain.
    pub chain: Seq<Seq<char>>,
    /// How many levels below the root the search may go.
    pub depth: nat,
    /// The property blocks collected so far.
    pub buffer: Seq<Seq<char>>,
    /// How far the search has come; absent before it has begun.
    pub progress: Option<Progress>,
}

/// Where a walk leads once a listing has been taken in: on with the walk
/// while directories are pending, then to the candidates if there are any,
/// else to the end.
pub open spec fn settled(finder: FinderView) -> Progress {
    if finder.pending.len() > 0 {
        Progress::Walking(finder)
    } else if finder.results().len() > 0 {
        Progress::Querying { candidates: finder.results(), asked: 0 }
    } else {
        Progress::Populated
    }
}

impl SearchView {
    /// The state of an engine that has not searched yet.
    pub open spec fn fresh(root: Seq<char>, chain: Seq<Seq<char>>, depth: nat) -> SearchView {
        SearchView { root, chain, depth, buffer: Seq::empty(), progress: None }
    }

    /// Nothing is collected before a search, a walk in progress has a
    /// directory pending, and candidates being asked about are not all
    /// answered.
    pub open spec fn wf(self) -> bool {
        match self.progress {
            None => self.buffer.len() == 0,
            Some(Progress::Walking(finder)) => finder.wf() && finder.pending.len() > 0,
            Some(Progress::Querying { candidates, asked }) => asked < candidates.len(),
            Some(Progress::Populated) => true,
        }
    }

    /// The state with the search begun: unchanged where it has begun
    /// already.
    pub open spec fn begun(self) -> SearchView {
        match self.progress {
            None => SearchView {
                progress: Some(settled(FinderView::start(self.root, self.chain, self.depth))),
                ..self
            },
            Some(_) => self,
        }
    }

    /// The state after a listing was handed over. It counts only during
    /// the walk.
    pub open spec fn listed(self, listing: Option<Seq<EntryView>>) -> SearchView {
        match self.progress {
            Some(Progress::Walking(finder)) => SearchView {
                progress: Some(settled(finder.fed(listing))),
                ..self
            },
            _ => self,
        }
    }

    /// The state after the property source answered. It counts only while
    /// candidates are asked about: a usable block is stored, an unusable
    /// one skipped, and the next candidate is due.
    pub open spec fn answered(self, result: ResultView) -> SearchView {
        match self.progress {
            Some(Progress::Querying { candidates, asked }) => SearchView {
                buffer: match usable_output(result) {
                    Some(block) => self.buffer.push(block),
                    None => self.buffer,
                },
                progress: Some(
                    if asked + 1 < candidates.len() {
                        Progress::Querying { candidates, asked: asked + 1 }
                    } else {
                        Progress::Populated
                    },
                ),
                ..self
            },
            _ => self,
        }
    }

    /// What a search that has begun needs next.
    pub open spec fn action(self) -> ActionView {
        match self.progress {
            Some(Progress::Walking(finder)) => ActionView::ReadDir(finder.pending.last().0),
            Some(Progress::Querying { candidates, asked }) => ActionView::Query(
                candidates[asked as int],
            ),
            _ => ActionView::Done(self.buffer.len()),
        }
    }
}

/// The property blocks that a property source yields for `paths`, asked
/// in order: the usable ones, in that order.
pub open spec fn blocks_of(paths: Seq<Seq<char>>, answers: spec_fn(Seq<char>) -> ResultView) -> Seq<
    Seq<char>,
> {
    paths.filter_map(|p: Seq<char>| usable_output(answers(p)))
}

/// What a whole search collects in a tree, from a property source that
/// answers each path by `answers`.
pub open spec fn expected_blocks(
    tree: Tree,
    answers: spec_fn(Seq<char>) -> ResultView,
    root: Seq<char>,
    chain: Seq<Seq<char>>,
    depth: nat,
) -> Seq<Seq<char>> {
    blocks_of(candidates(tree, root, chain, depth), answers)
}

impl SearchView {
    /// What the engine will hold once the search has run, if every listing
    /// handed over is that of `tree` and every report is that of `answers`.
    pub open spec fn outcome(self, tree: Tree, answers: spec_fn(Seq<char>) -> ResultView) -> Seq<
        Seq<char>,
    > {
        match self.progress {
            None => expected_blocks(tree, answers, self.root, self.chain, self.depth),
            Some(Progress::Walking(finder)) => self.buffer + blocks_of(
                finder.outcome(tree),
                answers,
            ),
            Some(Progress::Querying { candidates, asked }) => self.buffer + blocks_of(
                candidates.skip(asked as int),
                answers,
            ),
            Some(Progress::Populated) => self.buffer,
        }
    }
}

impl SearchView {
    /// How many listings and reports a search that has begun still needs
    /// before it has run, if every listing handed over is that of `tree`.
    pub open spec fn events_left(self, tree: Tree) -> nat {
        match self.progress {
            Some(Progress::Walking(finder)) => visits_pending(tree, finder.pending)
                + finder.outcome(tree).len(),
            Some(Progress::Querying { candidates, asked }) => (candidates.len() - asked) as nat,
            _ => 0,
        }
    }
}

impl SearchView {
    /// The state after the action that the search asks for was carried out
    /// in `tree` and by `answers`, and its result handed over.
    pub open spec fn served(
        self,
        tree: Tree,
        answers: spec_fn(Seq<char>) -> ResultView,
    ) -> SearchView {
        match self.action() {
            ActionView::ReadDir(dir) => self.listed(listing_of(tree, dir)),
            ActionView::Query(path) => self.answered(answers(path)),
            ActionView::Done(_) => self,
        }
    }

    /// The state after `events` actions were carried out in turn.
    pub open spec fn served_times(
        self,
        tree: Tree,
        answers: spec_fn(Seq<char>) -> ResultView,
        events: nat,
    ) -> SearchView
        decreases events,
    {
        if events == 0 {
            self
        } else {
            self.served(tree, answers).served_times(tree, answers, (events - 1) as nat)
        }
    }
}

/// The filter chain that an optional list of tokens stands for: the empty
/// chain where the list is absent.
pub open spec fn chain_of(filter: Option<Seq<Seq<char>>>) -> Seq<Seq<char>> {
    match filter {
        Some(chain) => chain,
        None => Seq::empty(),
    }
}

/// The depth that an optional limit stands for. Without a limit the search
/// goes as deep as the counter allows, which no real tree exhausts.
pub open spec fn depth_of(search_limit: Option<u32>) -> nat {
    match search_limit {
        Some(limit) => limit as nat,
        None => u32::MAX as nat,
    }
}

enum Stage {
    Empty,
    Walking(PathFinder),
    Querying { candidates: Vec<String>, asked: usize },
    Populated,
}

spec fn progress_of(stage: Stage) -> Option<Progress> {
    match stage {
        Stage::Empty => None,
        Stage::Walking(finder) => Some(Progress::Walking(finder@)),
        Stage::Querying { candidates, asked } => Some(
            Progress::Querying { candidates: candidates.deep_view(), asked: asked as nat },
        ),
        Stage::Populated => Some(Progress::Populated),
    }
}

/// The discovery engine.
pub struct SysfsSearch {
    path: String,
    filter: Option<Vec<String>>,
    search_limit: Option<u32>,
    buffer: Vec<String>,
    stage: Stage,
}

impl View for SysfsSearch {
    type V = SearchView;

    closed spec fn view(&self) -> SearchView {
        SearchView {
            root: self.path@,
            chain: chain_of(self.filter.deep_view()),
            depth: depth_of(self.search_limit),
            buffer: self.buffer.deep_view(),
            progress: progress_of(self.stage),
        }
    }
}

fn owned_texts(texts: &Vec<&str>) -> (r: Vec<String>)
    ensures
        r.deep_view() == texts.deep_view(),
{
    let mut out: Vec<String> = Vec::new();
    let mut i: usize = 0;
    while i < texts.len()
        invariant
            i <= texts.len(),
            out.len() == i,
            forall|j: int| 0 <= j < i ==> out[j]@ == texts[j]@,
        decreases texts.len() - i,
    {
        out.push(texts[i].to_owned());
        i += 1;
    }
    assert(out.deep_view() =~= texts.deep_view());
    out
}

fn cloned_texts(texts: &Vec<String>) -> (r: Vec<String>)
    ensures
        r.deep_view() == texts.deep_view(),
{
    let mut out: Vec<String> = Vec::new();
    let mut i: usize = 0;
    while i < texts.len()
        invariant
            i <= texts.len(),
            out.len() == i,
            forall|j: int| 0 <= j < i ==> out[j]@ == texts[j]@,
        decreases texts.len() - i,
    {
        out.push(texts[i].clone());
        i += 1;
    }
    assert(out.deep_view() =~= texts.deep_view());
    out
}

fn settle(finder: PathFinder) -> (stage: Stage)
    ensures
        progress_of(stage) == Some(settled(finder@)),
        finder@.wf(),
{
    if !finder.is_done() {
        Stage::Walking(finder)
    } else {
        let candidates = finder.results();
        if candidates.len() > 0 {
            Stage::Querying { candidates, asked: 0 }
        } else {
            Stage::Populated
        }
    }
}

impl SysfsSearch {
    #[verifier::type_invariant]
    spec fn inv(self) -> bool {
        self@.wf()
    }

    /// An engine for one session. Nothing is searched until `search` is
    /// called.
    pub fn new(path: &str, filter: Option<Vec<&str>>, search_limit: Option<u32>) -> (r:
        SysfsSearch)
        ensures
            r@ == SearchView::fresh(path@, chain_of(filter.deep_view()), depth_of(search_limit)),
            r@.wf(),
    {
        let ghost chain = chain_of(filter.deep_view());
        let filter: Option<Vec<String>> = match filter {
            Some(tokens) => Some(owned_texts(&tokens)),
            None => None,
        };
        assert(chain_of(filter.deep_view()) == chain);
        let r = SysfsSearch {
            path: path.to_owned(),
            filter,
            search_limit,
            buffer: Vec::new(),
            stage: Stage::Empty,
        };
        assert(r@.buffer =~= Seq::empty());
        r
    }

    fn begin(&self, stage: Stage) -> (r: Stage)
        ensures
            progress_of(r) == (SearchView { progress: progress_of(stage), ..self@ }).begun().progress,
            (SearchView { progress: progress_of(stage), ..self@ }).wf() ==> (SearchView {
                progress: progress_of(r),
                ..self@
            }).wf(),
    {
        match stage {
            Stage::Empty => {
                let chain: Vec<String> = match &self.filter {
                    Some(tokens) => cloned_texts(tokens),
                    None => Vec::new(),
                };
                assert(chain.deep_view() =~= self@.chain);
                let depth: u32 = match self.search_limit {
                    Some(limit) => limit,
                    None => u32::MAX,
                };
                settle(PathFinder::new(self.path.as_str(), chain, depth))
            },
            other => other,
        }
    }

    fn wanted(&self, stage: &Stage) -> (r: Action)
        requires
            progress_of(*stage) is Some,
            (SearchView { progress: progress_of(*stage), ..self@ }).wf(),
        ensures
            r@ == (SearchView { progress: progress_of(*stage), ..self@ }).action(),
    {
        match stage {
            Stage::Walking(finder) => match finder.next_dir() {
                Some(dir) => Action::ReadDir(dir),
                None => Action::Done(self.buffer.len()),
            },
            Stage::Querying { candidates, asked } => Action::Query(candidates[*asked].clone()),
            _ => Action::Done(self.buffer.len()),
        }
    }

    /// Begins the search, or takes it up where it stands, and says what it
    /// needs next. Once the search has run this changes nothing and
    /// reports the number of stored blocks.
    pub fn search(&mut self) -> (r: Action)
        ensures
            final(self)@ == old(self)@.begun(),
            r@ == final(self)@.action(),
            final(self)@.wf(),
            old(self)@.progress == Some(Progress::Populated) ==> final(self)@ == old(self)@ && r@
                == ActionView::Done(old(self)@.buffer.len()),
    {
        proof {
            use_type_invariant(&*self);
        }
        let mut stage = Stage::Populated;
        core::mem::swap(&mut stage, &mut self.stage);
        let stage = self.begin(stage);
        let action = self.wanted(&stage);
        self.stage = stage;
        action
    }

    /// Takes in the listing of the directory that the last action named,
    /// absent where it could not be listed, and says what the search needs
    /// next. Outside the walk the listing is ignored, and the call does
    /// what `search` does.
    pub fn listed(&mut self, listing: Option<Vec<DirEntry>>) -> (r: Action)
        ensures
            final(self)@ == old(self)@.listed(listing.deep_view()).begun(),
            r@ == final(self)@.action(),
            final(self)@.wf(),
    {
        proof {
            use_type_invariant(&*self);
        }
        let mut stage = Stage::Populated;
        core::mem::swap(&mut stage, &mut self.stage);
        let stage = match stage {
            Stage::Walking(finder) => {
                let mut finder = finder;
                finder.feed(listing);
                settle(finder)
            },
            other => other,
        };
        let stage = self.begin(stage);
        let action = self.wanted(&stage);
        self.stage = stage;
        action
    }

    /// Takes in what the property source reported for the path that the
    /// last action named, and says what the search needs next. Outside the
    /// querying of candidates the report is ignored, and the call does what
    /// `search` does.
    pub fn answered(&mut self, result: CommandResult) -> (r: Action)
        ensures
            final(self)@ == old(self)@.answered(result@).begun(),
            r@ == final(self)@.action(),
            final(self)@.wf(),
    {
        proof {
            use_type_invariant(&*self);
        }
        let mut stage = Stage::Populated;
        core::mem::swap(&mut stage, &mut self.stage);
        let stage = match stage {
            Stage::Querying { candidates, asked } => {
                assert(asked < candidates.deep_view().len() == candidates.len());
                match result.into_output() {
                    Some(block) => {
                        let ghost before = self.buffer.deep_view();
                        let mut buffer: Vec<String> = Vec::new();
                        core::mem::swap(&mut buffer, &mut self.buffer);
                        buffer.push(block);
                        assert(buffer.deep_view() =~= before.push(block@));
                        self.buffer = buffer;
                    },
                    None => {},
                }
                if asked + 1 < candidates.len() {
                    Stage::Querying { candidates, asked: asked + 1 }
                } else {
                    Stage::Populated
                }
            },
            other => other,
        };
        let stage = self.begin(stage);
        let action = self.wanted(&stage);
        self.stage = stage;
        action
    }

    /// The values of `key` in the stored blocks that meet the criteria, in
    /// the order of the blocks; absent where no block is stored or none
    /// yields a value.
    pub fn get_property(&self, key: &str, criteria: Option<&Vec<(&str, &str)>>) -> (r: Option<
        Vec<String>,
    >)
        ensures
            match r {
                Some(values) => values.len() > 0 && values.deep_view() == matched_values(
                    self@.buffer,
                    key@,
                    criteria_of(criteria),
                ),
                None => matched_values(self@.buffer, key@, criteria_of(criteria)).len() == 0,
            },
    {
        let values = match_values(&self.buffer, key, criteria);
        if values.len() == 0 {
            None
        } else {
            Some(values)
        }
    }
}

/// Where a walk settles, the engine's outcome is what the walk's outcome
/// yields after what is stored.
proof fn lemma_settled_outcome(
    v: SearchView,
    finder: FinderView,
    tree: Tree,
    answers: spec_fn(Seq<char>) -> ResultView,
)
    requires
        finder.wf(),
    ensures
        (SearchView { progress: Some(settled(finder)), ..v }).wf(),
        (SearchView { progress: Some(settled(finder)), ..v }).outcome(tree, answers) == v.buffer
            + blocks_of(finder.outcome(tree), answers),
{
    if finder.pending.len() == 0 {
        lemma_done_outcome(finder, tree);
        let results = finder.results();
        assert(results.skip(0) =~= results);
        if results.len() == 0 {
            assert(v.buffer + blocks_of(results, answers) =~= v.buffer);
        }
    }
}

/// Beginning the search leaves its outcome as it was: a fresh engine is
/// bound for the blocks of the whole search.
pub proof fn lemma_begun_keeps_outcome(
    v: SearchView,
    tree: Tree,
    answers: spec_fn(Seq<char>) -> ResultView,
)
    requires
        v.wf(),
    ensures
        v.begun().wf(),
        v.begun().outcome(tree, answers) == v.outcome(tree, answers),
{
    if v.progress is None {
        let finder = FinderView::start(v.root, v.chain, v.depth);
        lemma_start_outcome(tree, v.root, v.chain, v.depth);
        lemma_settled_outcome(v, finder, tree, answers);
        assert(v.buffer + blocks_of(finder.outcome(tree), answers) =~= blocks_of(
            finder.outcome(tree),
            answers,
        ));
    }
}

/// Handing over the tree's listing of the directory asked for leaves the
/// outcome as it was.
pub proof fn lemma_listed_keeps_outcome(
    v: SearchView,
    tree: Tree,
    answers: spec_fn(Seq<char>) -> ResultView,
)
    requires
        v.wf(),
        v.progress matches Some(Progress::Walking(_)),
    ensures
        v.action() matches ActionView::ReadDir(dir) && {
            &&& v.listed(listing_of(tree, dir)).wf()
            &&& v.listed(listing_of(tree, dir)).outcome(tree, answers) == v.outcome(tree, answers)
        },
{
    let finder = v.progress->0->Walking_0;
    lemma_feed_keeps_outcome(finder, tree);
    lemma_settled_outcome(v, finder.fed(listing_of(tree, finder.pending.last().0)), tree, answers);
}

/// Handing over the property source's report on the path asked about
/// leaves the outcome as it was.
pub proof fn lemma_answered_keeps_outcome(
    v: SearchView,
    tree: Tree,
    answers: spec_fn(Seq<char>) -> ResultView,
)
    requires
        v.wf(),
        v.progress matches Some(Progress::Querying { .. }),
    ensures
        v.action() matches ActionView::Query(path) && {
            &&& v.answered(answers(path)).wf()
            &&& v.answered(answers(path)).outcome(tree, answers) == v.outcome(tree, answers)
        },
{
    let candidates = v.progress->0->candidates;
    let asked = v.progress->0->asked;
    let path = candidates[asked as int];
    let rest = candidates.skip(asked as int + 1);
    let after = v.answered(answers(path));
    let usable = |p: Seq<char>| usable_output(answers(p));
    assert(candidates.skip(asked as int) =~= seq![path] + rest);
    lemma_filter_map_concat(seq![path], rest, usable);
    lemma_filter_map_one(path, usable);
    if asked + 1 >= candidates.len() {
        assert(rest =~= Seq::empty());
    }
    assert(after.outcome(tree, answers) =~= v.outcome(tree, answers));
}

/// Once the search has run, the engine holds its outcome, and nothing
/// changes it any more: beginning again is a no-op that reports the same
/// count, and listings and reports are ignored.
pub proof fn lemma_populated_is_final(
    v: SearchView,
    tree: Tree,
    answers: spec_fn(Seq<char>) -> ResultView,
    listing: Option<Seq<EntryView>>,
    result: ResultView,
)
    requires
        v.progress == Some(Progress::Populated),
    ensures
        v.outcome(tree, answers) == v.buffer,
        v.begun() == v,
        v.listed(listing) == v,
        v.answered(result) == v,
        v.action() == ActionView::Done(v.buffer.len()),
{
}

/// Beginning a search twice is beginning it once: the second call finds
/// the state and the action of the first.
pub proof fn lemma_begun_twice(v: SearchView)
    ensures
        v.begun().begun() == v.begun(),
{
}

/// Each listing of the tree that is handed over brings the search one
/// event nearer to its end.
pub proof fn lemma_listed_uses_one_event(v: SearchView, tree: Tree)
    requires
        v.wf(),
        v.progress matches Some(Progress::Walking(_)),
    ensures
        v.action() matches ActionView::ReadDir(dir) && v.listed(
            listing_of(tree, dir),
        ).events_left(tree) + 1 == v.events_left(tree),
{
    let finder = v.progress->0->Walking_0;
    let after = finder.fed(listing_of(tree, finder.pending.last().0));
    lemma_feed_keeps_outcome(finder, tree);
    lemma_feed_shortens_walk(finder, tree);
    if after.pending.len() == 0 {
        lemma_done_outcome(after, tree);
    }
}

/// Each report that is handed over brings the search one event nearer to
/// its end. With `lemma_listed_uses_one_event` this bounds the search: it
/// has run after as many events as `events_left` counts when it begins.
pub proof fn lemma_answered_uses_one_event(v: SearchView, tree: Tree, result: ResultView)
    requires
        v.wf(),
        v.progress matches Some(Progress::Querying { .. }),
    ensures
        v.answered(result).events_left(tree) + 1 == v.events_left(tree),
{
}

/// A search needs no further event exactly when it has run.
pub proof fn lemma_no_event_left_iff_populated(v: SearchView, tree: Tree)
    requires
        v.wf(),
        v.progress is Some,
    ensures
        v.events_left(tree) == 0 <==> v.progress == Some(Progress::Populated),
        v.events_left(tree) == 0 <==> v.action() is Done,
{
    if let Some(Progress::Walking(finder)) = v.progress {
        assert(visits_pending(tree, finder.pending) >= 1);
    }
}

/// With an empty filter chain nothing is read: the search asks about the
/// root itself, and the report on the root ends it.
pub proof fn lemma_empty_chain_asks_about_root(root: Seq<char>, depth: nat, result: ResultView)
    ensures
        SearchView::fresh(root, Seq::empty(), depth).begun().action() == ActionView::Query(root),
        SearchView::fresh(root, Seq::empty(), depth).begun().answered(result).progress == Some(
            Progress::Populated,
        ),
        SearchView::fresh(root, Seq::empty(), depth).begun().answered(result).buffer
            == match usable_output(result) {
            Some(block) => seq![block],
            None => Seq::empty(),
        },
{
    let chain = Seq::<Seq<char>>::empty();
    let finder = FinderView::start(root, chain, depth);
    reveal(Seq::filter);
    assert(seq![root].drop_last() =~= Seq::<Seq<char>>::empty());
    assert(crate::pathfinder::passes(root, chain));
    assert(finder.results() =~= seq![root]);
    let begun = SearchView::fresh(root, chain, depth).begun();
    assert(begun.answered(result).buffer =~= match usable_output(result) {
        Some(block) => seq![block],
        None => Seq::empty(),
    });
}

/// A search that is served faithfully has run after as many events as
/// `events_left` counts, and then holds its outcome.
pub proof fn lemma_served_search_runs_to_outcome(
    v: SearchView,
    tree: Tree,
    answers: spec_fn(Seq<char>) -> ResultView,
)
    requires
        v.wf(),
        v.progress is Some,
    ensures
        v.served_times(tree, answers, v.events_left(tree)).progress == Some(Progress::Populated),
        v.served_times(tree, answers, v.events_left(tree)).buffer == v.outcome(tree, answers),
    decreases v.events_left(tree),
{
    lemma_no_event_left_iff_populated(v, tree);
    if v.events_left(tree) > 0 {
        let next = v.served(tree, answers);
        match v.progress {
            Some(Progress::Walking(_)) => {
                lemma_listed_keeps_outcome(v, tree, answers);
                lemma_listed_uses_one_event(v, tree);
            },
            Some(Progress::Querying { candidates, asked }) => {
                lemma_answered_keeps_outcome(v, tree, answers);
                lemma_answered_uses_one_event(v, tree, answers(candidates[asked as int]));
            },
            _ => {},
        }
        lemma_served_search_runs_to_outcome(next, tree, answers);
    }
}

/// The whole search: a fresh engine that is begun and then served
/// faithfully ends up holding, in order, the usable property blocks of the
/// candidates that the tree holds for its root, chain and depth.
pub proof fn lemma_search_collects_expected_blocks(
    root: Seq<char>,
    chain: Seq<Seq<char>>,
    depth: nat,
    tree: Tree,
    answers: spec_fn(Seq<char>) -> ResultView,
)
    ensures
        ({
            let begun = SearchView::fresh(root, chain, depth).begun();
            let end = begun.served_times(tree, answers, begun.events_left(tree));
            &&& end.progress == Some(Progress::Populated)
            &&& end.buffer == expected_blocks(tree, answers, root, chain, depth)
        }),
{
    let fresh = SearchView::fresh(root, chain, depth);
    lemma_begun_keeps_outcome(fresh, tree, answers);
    lemma_served_search_runs_to_outcome(fresh.begun(), tree, answers);
}

} // verus!
