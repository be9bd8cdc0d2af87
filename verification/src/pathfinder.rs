//! Depth-bounded search of a directory tree for marker entries.
//!
//! The finder never touches a file system. It says which directory it wants
//! listed next, is handed that listing, and records the candidates; whoever
//! drives it does the reading. A directory that cannot be listed is handed
//! over as an absent listing and contributes nothing.
//!
//! Conventions: a candidate is the directory that holds a matching entry,
//! never the entry itself, and it is named by the path under which the
//! finder asked for its listing. Every entry is held against the target
//! name, whether or not the search descends into it. Candidates come in
//! pre-order: those of a directory before those of the directories below
//! it, which follow in listing order.

use vstd::prelude::*;
use vstd::string::*;
use crate::text::{chars_of, contains, has_substring, same_text};

verus! {

/// One entry of a directory listing.
#[derive(Clone, Debug, PartialEq, Eq)]
pub struct DirEntry {
    /// The entry's file name, without any directory part.
    pub name: String,
    /// Whether the entry is a directory, links followed.
    pub is_dir: bool,
}

/// The mathematical value of a [`DirEntry`].
pub struct EntryView {
    pub name: Seq<char>,
    pub is_dir: bool,
}

impl View for DirEntry {
    type V = EntryView;

    open spec fn view(&self) -> EntryView {
        EntryView { name: self.name@, is_dir: self.is_dir }
    }
}

impl DeepView for DirEntry {
    type V = EntryView;

    open spec fn deep_view(&self) -> EntryView {
        self@
    }
}

/// Whether a directory of this name is a cross-link that the search must
/// not follow.
pub open spec fn is_excluded(name: Seq<char>) -> bool {
    ||| name == "subsystem"@
    ||| name == "driver"@
    ||| name == "firmware_node"@
    ||| name == "port"@
}

/// The path of the entry `name` in the directory `dir`: the two joined by
/// one `/`, which is left out where `dir` is empty or ends in one.
pub open spec fn child_path(dir: Seq<char>, name: Seq<char>) -> Seq<char> {
    if dir.len() == 0 || dir.last() == '/' {
        dir + name
    } else {
        dir + seq!['/'] + name
    }
}

/// The candidates that a listing of `dir` yields by itself: `dir`, once for
/// each entry named `target`.
pub open spec fn own_matches(dir: Seq<char>, entries: Seq<EntryView>, target: Seq<char>) -> Seq<
    Seq<char>,
> {
    entries.filter_map(
        |e: EntryView|
            if e.name == target {
                Some(dir)
            } else {
                None
            },
    )
}

/// The directories below `dir` that a search with depth to spare goes into:
/// the paths of its entries that are directories and not excluded, in
/// listing order.
pub open spec fn children(dir: Seq<char>, entries: Seq<EntryView>) -> Seq<Seq<char>> {
    entries.filter_map(
        |e: EntryView|
            if e.is_dir && !is_excluded(e.name) {
                Some(child_path(dir, e.name))
            } else {
                None
            },
    )
}

/// A directory tree: the listing of each directory that can be listed, by
/// path. A path outside the map names nothing that can be listed (it is
/// missing, unreadable, or no directory).
pub type Tree = Map<Seq<char>, Seq<EntryView>>;

/// The listing that a driver hands over for `dir`.
pub open spec fn listing_of(tree: Tree, dir: Seq<char>) -> Option<Seq<EntryView>> {
    if tree.contains_key(dir) {
        Some(tree[dir])
    } else {
        None
    }
}

/// The candidates found in and below `dir` with `depth` levels to spare.
pub open spec fn walk(tree: Tree, dir: Seq<char>, target: Seq<char>, depth: nat) -> Seq<Seq<char>>
    decreases depth, 0nat,
{
    match listing_of(tree, dir) {
        None => Seq::empty(),
        Some(entries) => own_matches(dir, entries, target) + (if depth > 0 {
            walk_each(tree, children(dir, entries), target, (depth - 1) as nat)
        } else {
            Seq::empty()
        }),
    }
}

/// The candidates found in and below each of `dirs` in turn, each searched
/// with `depth` levels to spare.
pub open spec fn walk_each(tree: Tree, dirs: Seq<Seq<char>>, target: Seq<char>, depth: nat) -> Seq<
    Seq<char>,
>
    decreases depth, dirs.len() + 1,
{
    if dirs.len() == 0 {
        Seq::empty()
    } else {
        walk(tree, dirs.first(), target, depth) + walk_each(
            tree,
            dirs.drop_first(),
            target,
            depth,
        )
    }
}

/// Whether a candidate passes the filters of a chain: it has every entry of
/// the chain but the first as a substring.
pub open spec fn passes(path: Seq<char>, chain: Seq<Seq<char>>) -> bool {
    forall|i: int| 1 <= i < chain.len() ==> has_substring(path, #[trigger] chain[i])
}

/// The candidates that pass the filters of a chain, in their order.
pub open spec fn retained(found: Seq<Seq<char>>, chain: Seq<Seq<char>>) -> Seq<Seq<char>> {
    found.filter(|p: Seq<char>| passes(p, chain))
}

/// What a search finds: with an empty chain the root itself, unfiltered;
/// otherwise the directories in and below `root`, down to `depth` levels,
/// that hold an entry named `chain[0]` and pass the rest of the chain.
pub open spec fn candidates(tree: Tree, root: Seq<char>, chain: Seq<Seq<char>>, depth: nat) -> Seq<
    Seq<char>,
> {
    if chain.len() == 0 {
        seq![root]
    } else {
        retained(walk(tree, root, chain[0], depth), chain)
    }
}

/// The order in which directories are put on the work stack so that the
/// first of `dirs` is taken off first: the reverse of `dirs`, each with the
/// depth left for it.
pub open spec fn stacked(dirs: Seq<Seq<char>>, depth: nat) -> Seq<(Seq<char>, nat)> {
    Seq::new(dirs.len(), |i: int| (dirs[dirs.len() - 1 - i], depth))
}

/// The candidates found in and below the directories of a work stack, the
/// last of which is searched first.
pub open spec fn walk_pending(tree: Tree, pending: Seq<(Seq<char>, nat)>, target: Seq<char>) -> Seq<
    Seq<char>,
>
    decreases pending.len(),
{
    if pending.len() == 0 {
        Seq::empty()
    } else {
        walk(tree, pending.last().0, target, pending.last().1) + walk_pending(
            tree,
            pending.drop_last(),
            target,
        )
    }
}

/// The mathematical value of a [`PathFinder`].
pub struct FinderView {
    /// The filter chain: the target name, then the substring filters.
    pub chain: Seq<Seq<char>>,
    /// The directories still to be listed, each with the depth left below
    /// it; the last one is listed next.
    pub pending: Seq<(Seq<char>, nat)>,
    /// The candidates recorded so far, unfiltered.
    pub found: Seq<Seq<char>>,
}

impl FinderView {
    /// Directories are pending only where there is a target to look for.
    pub open spec fn wf(self) -> bool {
        self.pending.len() > 0 ==> self.chain.len() > 0
    }

    /// The state in which a search begins. With an empty chain nothing is
    /// searched and the root is the one candidate.
    pub open spec fn start(root: Seq<char>, chain: Seq<Seq<char>>, depth: nat) -> FinderView {
        if chain.len() == 0 {
            FinderView { chain, pending: Seq::empty(), found: seq![root] }
        } else {
            FinderView { chain, pending: seq![(root, depth)], found: Seq::empty() }
        }
    }

    /// The directory whose listing is wanted next, if any is.
    pub open spec fn next_dir(self) -> Option<Seq<char>> {
        if self.pending.len() > 0 {
            Some(self.pending.last().0)
        } else {
            None
        }
    }

    /// The state after the wanted listing was handed over. An absent
    /// listing drops the directory and all below it. A listing adds the
    /// directory's own matches to the candidates and, with depth to spare,
    /// puts its children on the stack. Without a wanted directory nothing
    /// changes.
    pub open spec fn fed(self, listing: Option<Seq<EntryView>>) -> FinderView {
        if self.pending.len() == 0 {
            self
        } else {
            let (dir, depth) = self.pending.last();
            match listing {
                None => FinderView { pending: self.pending.drop_last(), ..self },
                Some(entries) => FinderView {
                    chain: self.chain,
                    pending: self.pending.drop_last() + (if depth > 0 {
                        stacked(children(dir, entries), (depth - 1) as nat)
                    } else {
                        Seq::empty()
                    }),
                    found: self.found + own_matches(dir, entries, self.chain[0]),
                },
            }
        }
    }

    /// The candidates recorded so far that pass the filters.
    pub open spec fn results(self) -> Seq<Seq<char>> {
        retained(self.found, self.chain)
    }

    /// What the search will have found once it is over, if every listing
    /// handed over is that of `tree`.
    pub open spec fn outcome(self, tree: Tree) -> Seq<Seq<char>> {
        retained(self.found + walk_pending(tree, self.pending, self.chain[0]), self.chain)
    }
}

/// Whether a directory named `name` is one that the search must not
/// follow.
pub fn is_excluded_name(name: &str) -> (r: bool)
    ensures
        r == is_excluded(name@),
{
    let chars = chars_of(name);
    same_text(chars.as_slice(), chars_of("subsystem").as_slice()) || same_text(
        chars.as_slice(),
        chars_of("driver").as_slice(),
    ) || same_text(chars.as_slice(), chars_of("firmware_node").as_slice()) || same_text(
        chars.as_slice(),
        chars_of("port").as_slice(),
    )
}

/// The path of the entry `name` in the directory `dir`.
pub fn join_path(dir: &str, name: &str) -> (r: String)
    ensures
        r@ == child_path(dir@, name@),
{
    let chars = chars_of(dir);
    let n: usize = chars.len();
    let mut path = dir.to_owned();
    if n > 0 && chars[n - 1] != '/' {
        proof {
            reveal_strlit("/");
            assert("/"@ =~= seq!['/']);
        }
        path.append("/");
    }
    path.append(name);
    path
}

/// Reads one listing of `dir`: the candidates it yields by itself, and the
/// directories below `dir` that may be gone into.
pub fn scan(dir: &str, entries: &Vec<DirEntry>, target: &str) -> (r: (Vec<String>, Vec<String>))
    ensures
        r.0.deep_view() == own_matches(dir@, entries.deep_view(), target@),
        r.1.deep_view() == children(dir@, entries.deep_view()),
{
    let ghost hit = |e: EntryView|
        if e.name == target@ {
            Some(dir@)
        } else {
            None
        };
    let ghost kid = |e: EntryView|
        if e.is_dir && !is_excluded(e.name) {
            Some(child_path(dir@, e.name))
        } else {
            None
        };
    let wanted = chars_of(target);
    let mut matches: Vec<String> = Vec::new();
    let mut kids: Vec<String> = Vec::new();
    let mut i: usize = 0;
    assert(entries.deep_view().take(0) =~= Seq::empty());
    while i < entries.len()
        invariant
            i <= entries.len(),
            wanted@ == target@,
            hit == |e: EntryView|
                if e.name == target@ {
                    Some(dir@)
                } else {
                    None
                },
            kid == |e: EntryView|
                if e.is_dir && !is_excluded(e.name) {
                    Some(child_path(dir@, e.name))
                } else {
                    None
                },
            matches.deep_view() == entries.deep_view().take(i as int).filter_map(hit),
            kids.deep_view() == entries.deep_view().take(i as int).filter_map(kid),
        decreases entries.len() - i,
    {
        let entry = &entries[i];
        assert(entries.deep_view()[i as int] == entry@);
        proof {
            entries.deep_view().lemma_filter_map_take_succ(hit, i as int);
            entries.deep_view().lemma_filter_map_take_succ(kid, i as int);
        }
        let ghost matches_before = matches.deep_view();
        let ghost kids_before = kids.deep_view();
        if same_text(chars_of(entry.name.as_str()).as_slice(), wanted.as_slice()) {
            matches.push(dir.to_owned());
            assert(matches.deep_view() =~= matches_before + seq![dir@]);
        }
        if entry.is_dir && !is_excluded_name(entry.name.as_str()) {
            let path = join_path(dir, entry.name.as_str());
            kids.push(path);
            assert(kids.deep_view() =~= kids_before + seq![child_path(dir@, entry.name@)]);
        }
        i += 1;
    }
    assert(entries.deep_view().take(entries.len() as int) =~= entries.deep_view());
    (matches, kids)
}

/// Whether `path` passes the filters of `chain`.
pub fn passes_chain(path: &str, chain: &Vec<String>) -> (r: bool)
    ensures
        r == passes(path@, chain.deep_view()),
{
    let text = chars_of(path);
    let mut i: usize = 1;
    while i < chain.len()
        invariant
            1 <= i,
            text@ == path@,
            forall|j: int| 1 <= j < i && j < chain.len() ==> has_substring(
                path@,
                #[trigger] chain.deep_view()[j],
            ),
        decreases chain.len() - i,
    {
        assert(chain.deep_view()[i as int] == chain[i as int]@);
        if !contains(text.as_slice(), chars_of(chain[i].as_str()).as_slice()) {
            return false;
        }
        i += 1;
    }
    true
}

/// A search in progress.
pub struct PathFinder {
    chain: Vec<String>,
    pending: Vec<(String, u32)>,
    found: Vec<String>,
}

impl View for PathFinder {
    type V = FinderView;

    closed spec fn view(&self) -> FinderView {
        FinderView {
            chain: self.chain.deep_view(),
            pending: self.pending.deep_view().map_values(
                |p: (Seq<char>, u32)| (p.0, p.1 as nat),
            ),
            found: self.found.deep_view(),
        }
    }
}

impl PathFinder {
    #[verifier::type_invariant]
    spec fn inv(self) -> bool {
        self.pending.len() > 0 ==> self.chain.len() > 0
    }

    /// Begins a search below `root` for entries named `filter_chain[0]`,
    /// going at most `depth_limit` levels down.
    pub fn new(root: &str, filter_chain: Vec<String>, depth_limit: u32) -> (r: PathFinder)
        ensures
            r@ == FinderView::start(root@, filter_chain.deep_view(), depth_limit as nat),
            r@.wf(),
    {
        let mut pending: Vec<(String, u32)> = Vec::new();
        let mut found: Vec<String> = Vec::new();
        if filter_chain.len() == 0 {
            found.push(root.to_owned());
        } else {
            pending.push((root.to_owned(), depth_limit));
        }
        let r = PathFinder { chain: filter_chain, pending, found };
        proof {
            let v = FinderView::start(root@, filter_chain.deep_view(), depth_limit as nat);
            assert(r@.pending =~= v.pending);
            assert(r@.found =~= v.found);
        }
        r
    }

    /// The directory whose listing the search wants next; none once the
    /// search is over.
    pub fn next_dir(&self) -> (r: Option<String>)
        ensures
            r.deep_view() == self@.next_dir(),
    {
        let n: usize = self.pending.len();
        if n == 0 {
            None
        } else {
            Some(self.pending[n - 1].0.clone())
        }
    }

    /// Whether the search is over.
    pub fn is_done(&self) -> (r: bool)
        ensures
            r == (self@.pending.len() == 0),
            self@.wf(),
    {
        proof {
            use_type_invariant(self);
        }
        self.pending.len() == 0
    }

    /// Hands over the listing of the directory that `next_dir` named; an
    /// absent listing says that the directory could not be listed.
    pub fn feed(&mut self, listing: Option<Vec<DirEntry>>)
        ensures
            final(self)@ == old(self)@.fed(listing.deep_view()),
            final(self)@.wf(),
    {
        proof {
            use_type_invariant(&*self);
        }
        let ghost before = self@;
        let mut pending: Vec<(String, u32)> = Vec::new();
        core::mem::swap(&mut pending, &mut self.pending);
        let top = pending.pop();
        let ghost base = pending.deep_view().map_values(|p: (Seq<char>, u32)| (p.0, p.1 as nat));
        proof {
            if before.pending.len() > 0 {
                assert(base =~= before.pending.drop_last());
            } else {
                assert(base =~= before.pending);
            }
        }
        match (top, listing) {
            (Some((dir, depth)), Some(entries)) => {
                assert(before.pending.last() == (dir@, depth as nat));
                let (mut matches, mut kids) = scan(dir.as_str(), &entries, self.chain[0].as_str());
                let ghost all_kids = kids.deep_view();
                let ghost found_before = self.found.deep_view();
                let ghost added = matches.deep_view();
                let mut found: Vec<String> = Vec::new();
                core::mem::swap(&mut found, &mut self.found);
                found.append(&mut matches);
                assert(found.deep_view() =~= found_before + added);
                self.found = found;
                if depth > 0 {
                    let below: u32 = depth - 1;
                    let ghost pushed = stacked(all_kids, below as nat);
                    while kids.len() > 0
                        invariant
                            kids.len() <= all_kids.len(),
                            kids.deep_view() == all_kids.take(kids.len() as int),
                            pushed == stacked(all_kids, below as nat),
                            pending.deep_view().map_values(
                                |p: (Seq<char>, u32)| (p.0, p.1 as nat),
                            ) == base + pushed.take(all_kids.len() - kids.len()),
                        decreases kids.len(),
                    {
                        let ghost done = all_kids.len() - kids.len();
                        let ghost kids_before = kids.deep_view();
                        let ghost stack_before = pending.deep_view().map_values(
                            |p: (Seq<char>, u32)| (p.0, p.1 as nat),
                        );
                        let kid = kids.pop().unwrap();
                        assert(kid@ == kids_before[kids_before.len() - 1]);
                        assert(kids.deep_view() =~= all_kids.take(kids.len() as int));
                        pending.push((kid, below));
                        assert(pending.deep_view().map_values(
                            |p: (Seq<char>, u32)| (p.0, p.1 as nat),
                        ) =~= stack_before.push((kid@, below as nat)));
                        assert(pushed.take(done + 1) =~= pushed.take(done).push(pushed[done]));
                    }
                    assert(pushed.take(all_kids.len() as int) =~= pushed);
                }
            },
            _ => {},
        }
        self.pending = pending;
    }

    /// The candidates recorded so far that pass the filters, in the order
    /// in which they were recorded.
    pub fn results(&self) -> (r: Vec<String>)
        ensures
            r.deep_view() == self@.results(),
    {
        let ghost keep = |p: Seq<char>| passes(p, self.chain.deep_view());
        let mut out: Vec<String> = Vec::new();
        let mut i: usize = 0;
        assert(self.found.deep_view().take(0) =~= Seq::empty());
        proof {
            reveal(Seq::filter);
        }
        while i < self.found.len()
            invariant
                i <= self.found.len(),
                keep == |p: Seq<char>| passes(p, self.chain.deep_view()),
                out.deep_view() == self.found.deep_view().take(i as int).filter(keep),
            decreases self.found.len() - i,
        {
            let ghost out_before = out.deep_view();
            let ghost head = self.found.deep_view().take(i as int);
            proof {
                assert(self.found.deep_view().take(i + 1) =~= head.push(self.found[i as int]@));
                head.lemma_filter_push(self.found[i as int]@, keep);
            }
            if passes_chain(self.found[i].as_str(), &self.chain) {
                out.push(self.found[i].clone());
                assert(out.deep_view() =~= out_before.push(self.found[i as int]@));
            }
            i += 1;
        }
        assert(self.found.deep_view().take(self.found.len() as int) =~= self.found.deep_view());
        out
    }
}

/// Directories put on a work stack by `stacked` are searched in their own
/// order, before whatever the stack held.
pub proof fn lemma_walk_stacked(
    tree: Tree,
    base: Seq<(Seq<char>, nat)>,
    dirs: Seq<Seq<char>>,
    target: Seq<char>,
    depth: nat,
)
    ensures
        walk_pending(tree, base + stacked(dirs, depth), target) == walk_each(
            tree,
            dirs,
            target,
            depth,
        ) + walk_pending(tree, base, target),
    decreases dirs.len(),
{
    let stack = base + stacked(dirs, depth);
    if dirs.len() == 0 {
        assert(stack =~= base);
    } else {
        let rest = dirs.drop_first();
        assert(stack.last() == (dirs.first(), depth));
        assert(stack.drop_last() =~= base + stacked(rest, depth));
        lemma_walk_stacked(tree, base, rest, target, depth);
        assert(walk_pending(tree, stack, target) =~= walk_each(tree, dirs, target, depth)
            + walk_pending(tree, base, target));
    }
}

/// A search begins with the outcome that the whole search is to have.
pub proof fn lemma_start_outcome(tree: Tree, root: Seq<char>, chain: Seq<Seq<char>>, depth: nat)
    ensures
        FinderView::start(root, chain, depth).wf(),
        FinderView::start(root, chain, depth).outcome(tree) == candidates(
            tree,
            root,
            chain,
            depth,
        ),
{
    let v = FinderView::start(root, chain, depth);
    reveal(Seq::filter);
    if chain.len() == 0 {
        assert(v.outcome(tree) == retained(seq![root] + Seq::empty(), chain));
        assert(seq![root] + Seq::empty() =~= seq![root]);
        assert(passes(root, chain));
        assert(seq![root].drop_last() =~= Seq::<Seq<char>>::empty());
        assert(retained(seq![root], chain) =~= seq![root]);
    } else {
        assert(v.pending.drop_last() =~= Seq::<(Seq<char>, nat)>::empty());
        assert(walk_pending(tree, Seq::empty(), chain[0]) =~= Seq::empty());
        assert(v.found + walk_pending(tree, v.pending, chain[0]) =~= walk(
            tree,
            root,
            chain[0],
            depth,
        ));
    }
}

/// Handing over the tree's listing of the wanted directory leaves the
/// outcome of the search as it was.
pub proof fn lemma_feed_keeps_outcome(v: FinderView, tree: Tree)
    requires
        v.wf(),
        v.pending.len() > 0,
    ensures
        v.fed(listing_of(tree, v.pending.last().0)).wf(),
        v.fed(listing_of(tree, v.pending.last().0)).outcome(tree) == v.outcome(tree),
{
    let (dir, depth) = v.pending.last();
    let target = v.chain[0];
    let base = v.pending.drop_last();
    let after = v.fed(listing_of(tree, dir));
    match listing_of(tree, dir) {
        None => {
            assert(walk(tree, dir, target, depth) =~= Seq::empty());
            assert(after.found + walk_pending(tree, after.pending, target) =~= v.found
                + walk_pending(tree, v.pending, target));
        },
        Some(entries) => {
            if depth > 0 {
                lemma_walk_stacked(
                    tree,
                    base,
                    children(dir, entries),
                    target,
                    (depth - 1) as nat,
                );
            } else {
                assert(after.pending =~= base);
            }
            assert(after.found + walk_pending(tree, after.pending, target) =~= v.found
                + walk_pending(tree, v.pending, target));
        },
    }
}

/// Once no directory is pending, the results are the outcome.
pub proof fn lemma_done_outcome(v: FinderView, tree: Tree)
    requires
        v.pending.len() == 0,
    ensures
        v.outcome(tree) == v.results(),
{
    assert(v.found + walk_pending(tree, v.pending, v.chain[0]) =~= v.found);
}

/// With no depth to spare a search stays at its root: it yields the root's
/// own matches and nothing else.
pub proof fn lemma_depth_zero_walk(tree: Tree, root: Seq<char>, target: Seq<char>)
    ensures
        walk(tree, root, target, 0) == match listing_of(tree, root) {
            Some(entries) => own_matches(root, entries, target),
            None => Seq::empty(),
        },
{
    match listing_of(tree, root) {
        Some(entries) => {
            assert(own_matches(root, entries, target) + Seq::empty() =~= own_matches(
                root,
                entries,
                target,
            ));
        },
        None => {},
    }
}

/// A finder that was begun with depth zero wants no directory once it has
/// been handed the listing of its root, whatever that listing holds, and
/// has recorded the root's own matches only.
pub proof fn lemma_depth_zero_lists_root_only(
    root: Seq<char>,
    chain: Seq<Seq<char>>,
    listing: Option<Seq<EntryView>>,
)
    requires
        chain.len() > 0,
    ensures
        FinderView::start(root, chain, 0).next_dir() == Some(root),
        FinderView::start(root, chain, 0).fed(listing).next_dir() is None,
        FinderView::start(root, chain, 0).fed(listing).found == match listing {
            Some(entries) => own_matches(root, entries, chain[0]),
            None => Seq::empty(),
        },
{
    let v = FinderView::start(root, chain, 0);
    assert(v.pending.drop_last() =~= Seq::<(Seq<char>, nat)>::empty());
    match listing {
        Some(entries) => {
            assert(v.fed(listing).pending =~= Seq::<(Seq<char>, nat)>::empty());
            assert(v.fed(listing).found =~= own_matches(root, entries, chain[0]));
        },
        None => {},
    }
}

/// Whatever depth is left, a listing makes the finder want nothing but what
/// it wanted before and non-excluded directories of that listing, and the
/// latter only where depth was left, with one level less. So no excluded
/// directory is ever gone into, and none at all at depth zero.
pub proof fn lemma_fed_wants_admissible_only(v: FinderView, entries: Seq<EntryView>, k: int)
    requires
        v.pending.len() > 0,
        0 <= k < v.fed(Some(entries)).pending.len(),
    ensures
        k < v.pending.len() - 1 ==> v.fed(Some(entries)).pending[k] == v.pending[k],
        k >= v.pending.len() - 1 ==> {
            &&& v.pending.last().1 > 0
            &&& v.fed(Some(entries)).pending[k].1 == v.pending.last().1 - 1
            &&& exists|e: EntryView|
                {
                    &&& #[trigger] entries.contains(e)
                    &&& e.is_dir
                    &&& !is_excluded(e.name)
                    &&& v.fed(Some(entries)).pending[k].0 == child_path(v.pending.last().0, e.name)
                }
        },
{
    let (dir, depth) = v.pending.last();
    let after = v.fed(Some(entries)).pending;
    if k >= v.pending.len() - 1 {
        let kids = children(dir, entries);
        let at = kids.len() - 1 - (k - (v.pending.len() - 1));
        let path = kids[at];
        assert(after[k].0 == path);
        assert(kids.contains(path));
        let pick = |e: EntryView|
            if e.is_dir && !is_excluded(e.name) {
                Some(child_path(dir, e.name))
            } else {
                None
            };
        entries.lemma_filter_map_contains(pick, path);
        let e = choose|e: EntryView| entries.contains(e) && pick(e) == Some(path);
        assert(entries.contains(e) && e.is_dir && !is_excluded(e.name) && path == child_path(
            dir,
            e.name,
        ));
    }
}

/// Striking the excluded entries from a listing changes nothing in what
/// the search goes into: an excluded directory is as good as absent.
pub proof fn lemma_excluded_entries_are_not_children(dir: Seq<char>, entries: Seq<EntryView>)
    ensures
        children(dir, entries) == children(
            dir,
            entries.filter(|e: EntryView| !is_excluded(e.name)),
        ),
    decreases entries.len(),
{
    let admitted = |e: EntryView| !is_excluded(e.name);
    reveal(Seq::filter);
    if entries.len() > 0 {
        let init = entries.drop_last();
        let last = entries.last();
        lemma_excluded_entries_are_not_children(dir, init);
        if admitted(last) {
            assert(entries.filter(admitted).drop_last() =~= init.filter(admitted));
        }
    }
}

/// Adding a filter to a chain keeps of the retained candidates those that
/// have the new filter as a substring: filtering in stages and filtering at
/// once come to the same.
pub proof fn lemma_filters_in_stages(found: Seq<Seq<char>>, chain: Seq<Seq<char>>, f: Seq<char>)
    requires
        chain.len() >= 1,
    ensures
        retained(found, chain.push(f)) == retained(found, chain).filter(
            |p: Seq<char>| has_substring(p, f),
        ),
    decreases found.len(),
{
    let longer = chain.push(f);
    let both = |p: Seq<char>| passes(p, longer);
    let first = |p: Seq<char>| passes(p, chain);
    let second = |p: Seq<char>| has_substring(p, f);
    reveal(Seq::filter);
    if found.len() > 0 {
        let init = found.drop_last();
        let p = found.last();
        lemma_filters_in_stages(init, chain, f);
        assert(found =~= init.push(p));
        init.lemma_filter_push(p, both);
        init.lemma_filter_push(p, first);
        init.filter(first).lemma_filter_push(p, second);
        assert(passes(p, longer) <==> passes(p, chain) && has_substring(p, f)) by {
            if passes(p, longer) {
                assert(longer[chain.len() as int] == f);
                assert forall|i: int| 1 <= i < chain.len() implies has_substring(
                    p,
                    #[trigger] chain[i],
                ) by {
                    assert(longer[i] == chain[i]);
                }
            }
            if passes(p, chain) && has_substring(p, f) {
                assert forall|i: int| 1 <= i < longer.len() implies has_substring(
                    p,
                    #[trigger] longer[i],
                ) by {
                    if i < chain.len() {
                        assert(longer[i] == chain[i]);
                    }
                }
            }
        }
    }
}

/// A chain of a target and two filters retains exactly the candidates that
/// have both filters as substrings.
pub proof fn lemma_chain_of_three(
    found: Seq<Seq<char>>,
    f0: Seq<char>,
    f1: Seq<char>,
    f2: Seq<char>,
)
    ensures
        retained(found, seq![f0, f1, f2]) == found.filter(
            |p: Seq<char>| has_substring(p, f1) && has_substring(p, f2),
        ),
{
    let chain = seq![f0, f1, f2];
    let by_chain = |p: Seq<char>| passes(p, chain);
    let by_both = |p: Seq<char>| has_substring(p, f1) && has_substring(p, f2);
    assert forall|p: Seq<char>| #[trigger] by_chain(p) == by_both(p) by {
        assert(chain[1] == f1 && chain[2] == f2);
    }
    assert(by_chain =~= by_both);
}

/// The number of directories that a search of `dir` wants listed, `dir`
/// itself included, with `depth` levels to spare.
pub open spec fn visits(tree: Tree, dir: Seq<char>, depth: nat) -> nat
    decreases depth, 0nat,
{
    match listing_of(tree, dir) {
        Some(entries) => if depth > 0 {
            1 + visits_each(tree, children(dir, entries), (depth - 1) as nat)
        } else {
            1
        },
        None => 1,
    }
}

/// The number of directories that the searches of `dirs` want listed in
/// all.
pub open spec fn visits_each(tree: Tree, dirs: Seq<Seq<char>>, depth: nat) -> nat
    decreases depth, dirs.len() + 1,
{
    if dirs.len() == 0 {
        0
    } else {
        visits(tree, dirs.first(), depth) + visits_each(tree, dirs.drop_first(), depth)
    }
}

/// The number of listings that a work stack still calls for.
pub open spec fn visits_pending(tree: Tree, pending: Seq<(Seq<char>, nat)>) -> nat
    decreases pending.len(),
{
    if pending.len() == 0 {
        0
    } else {
        visits(tree, pending.last().0, pending.last().1) + visits_pending(
            tree,
            pending.drop_last(),
        )
    }
}

/// Directories put on a work stack add the listings that their searches
/// call for.
pub proof fn lemma_visits_stacked(
    tree: Tree,
    base: Seq<(Seq<char>, nat)>,
    dirs: Seq<Seq<char>>,
    depth: nat,
)
    ensures
        visits_pending(tree, base + stacked(dirs, depth)) == visits_each(tree, dirs, depth)
            + visits_pending(tree, base),
    decreases dirs.len(),
{
    let stack = base + stacked(dirs, depth);
    if dirs.len() == 0 {
        assert(stack =~= base);
    } else {
        let rest = dirs.drop_first();
        assert(stack.last() == (dirs.first(), depth));
        assert(stack.drop_last() =~= base + stacked(rest, depth));
        lemma_visits_stacked(tree, base, rest, depth);
    }
}

/// Each listing handed over leaves the walk one listing shorter, so a walk
/// ends, whatever links the tree holds: after as many listings as `visits`
/// counts for its root and depth.
pub proof fn lemma_feed_shortens_walk(v: FinderView, tree: Tree)
    requires
        v.pending.len() > 0,
    ensures
        visits_pending(tree, v.fed(listing_of(tree, v.pending.last().0)).pending) + 1
            == visits_pending(tree, v.pending),
{
    let (dir, depth) = v.pending.last();
    let base = v.pending.drop_last();
    match listing_of(tree, dir) {
        Some(entries) => {
            if depth > 0 {
                lemma_visits_stacked(tree, base, children(dir, entries), (depth - 1) as nat);
            } else {
                assert(v.fed(Some(entries)).pending =~= base);
            }
        },
        None => {},
    }
}

} // verus!
