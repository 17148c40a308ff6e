use vstd::prelude::*;

use crate::parser::{chars_of, opt_view, parse_includes, scanned};
use crate::paths::{extension, get_abs_name, join_path, parent_dir, with_extension};
use crate::paths::{dir_of, ext_of, joined, with_ext_of};

verus! {

/// A node of the graph: one file and the absolute paths of the files it names.
#[derive(Debug)]
pub struct Dependency {
    /// The path the file was reached by, without its extension.
    pub file: String,
    /// The file's absolute path, which identifies the node.
    pub full_path: String,
    /// The absolute paths of the files this one depends on, each once.
    pub dependencies: Vec<String>,
}

/// What a walk waits for next.
#[derive(Clone, Debug)]
pub enum Request {
    /// The contents of this file, or `None` where it cannot be read.
    Read(String),
    /// Whether this path exists.
    Exists(String),
    /// Nothing from outside: call `step`.
    Step,
    /// The walk is over.
    Done,
    /// A path could not be made absolute; the walk is abandoned.
    Failed,
}

/// Where the file on top of the stack stands.
enum Stage {
    /// To be looked up, then read.
    Open,
    /// Reading the name at `next`, or past the last one.
    Names,
    /// Probing the candidates for the name at `next`.
    Probe,
    /// The file at `target` is being walked; its edge comes after.
    Link,
    /// The source file at `target` is being walked; its node is folded in after.
    Merge,
    /// Done: the node goes into the graph.
    Finish,
}

struct Frame {
    path: String,
    abs: String,
    node: Dependency,
    names: Vec<String>,
    next: usize,
    cands: Vec<String>,
    cand: usize,
    target: String,
    stage: Stage,
}

/// Builds the graph of the files that a root file reaches through its directives.
///
/// The walker does no I/O itself. After `walk`, its caller looks at `pending` and answers:
/// `Read` with `answer_read`, `Exists` with `answer_exists`, `Step` with `step`, until `Done`.
/// Files are walked depth first; a file whose walk has started is not walked again in the same
/// walk, but edges to it are still recorded, so a cycle keeps all its edges.
pub struct IncludeWalker {
    search_directory: Vec<String>,
    /// The nodes built so far, at most one per absolute path.
    pub graph: Vec<Dependency>,
    visited: Vec<String>,
    stack: Vec<Frame>,
    pending: Request,
    /// The absolute path worked out last.
    resolved: Ghost<Seq<char>>,
    /// The absolute path of the header of a `.c` file, worked out last.
    resolved_header: Ghost<Option<Seq<char>>>,
}

/// `r` asks for the contents of the file at `p`.
pub open spec fn asks_to_read(r: Request, p: Seq<char>) -> bool {
    match r {
        Request::Read(x) => x@ == p,
        _ => false,
    }
}

/// No value occurs twice.
pub open spec fn distinct(s: Seq<Seq<char>>) -> bool {
    forall|i: int, j: int| 0 <= i < j < s.len() ==> s[i] != s[j]
}

/// The absolute paths of the nodes of a graph.
pub open spec fn keys(g: Seq<Dependency>) -> Seq<Seq<char>> {
    g.map_values(|d: Dependency| d.full_path@)
}

impl PartialEq for Dependency {
    fn eq(&self, other: &Dependency) -> (r: bool) {
        self.full_path == other.full_path
    }
}

impl vstd::std_specs::cmp::PartialEqSpecImpl for Dependency {
    open spec fn obeys_eq_spec() -> bool {
        true
    }

    open spec fn eq_spec(&self, other: &Dependency) -> bool {
        self.full_path@ == other.full_path@
    }
}

impl Dependency {
    /// Each dependency once, and none on the node itself.
    pub open spec fn wf(&self) -> bool {
        &&& distinct(self.dependencies.deep_view())
        &&& !self.dependencies.deep_view().contains(self.full_path@)
    }
}

/// Each path keys one node at most, and every node is well formed.
pub open spec fn graph_wf(g: Seq<Dependency>) -> bool {
    &&& distinct(keys(g))
    &&& forall|i: int| 0 <= i < g.len() ==> #[trigger] g[i].wf()
}

/// The paths tried for a name found in the file at `path`, in order: beside the file
/// first, then under each search directory.
pub open spec fn candidates_of(dirs: Seq<Seq<char>>, path: Seq<char>, name: Seq<char>) -> Seq<
    Seq<char>,
> {
    seq![joined(dir_of(path), name)] + dirs.map_values(|d: Seq<char>| joined(d, name))
}

fn contains_str(v: &Vec<String>, x: &String) -> (r: bool)
    ensures
        r == v.deep_view().contains(x@),
{
    let mut i: usize = 0;
    while i < v.len()
        invariant
            i <= v@.len(),
            forall|k: int| 0 <= k < i ==> v.deep_view()[k] != x@,
        decreases v@.len() - i,
    {
        if v[i] == *x {
            assert(v.deep_view()[i as int] == x@);
            return true;
        }
        i = i + 1;
    }
    false
}

fn find_node(g: &Vec<Dependency>, key: &String) -> (r: Option<usize>)
    ensures
        r matches Some(i) ==> i < g@.len() && g@[i as int].full_path@ == key@,
        r is None ==> !keys(g@).contains(key@),
{
    let mut i: usize = 0;
    while i < g.len()
        invariant
            i <= g@.len(),
            forall|k: int| 0 <= k < i ==> keys(g@)[k] != key@,
        decreases g@.len() - i,
    {
        if g[i].full_path == *key {
            return Some(i);
        }
        i = i + 1;
    }
    None
}

/// Adds `x` to the set `deps`, unless it is `own`.
fn add_edge(deps: &mut Vec<String>, x: String, own: &String)
    requires
        distinct(old(deps).deep_view()),
        !old(deps).deep_view().contains(own@),
    ensures
        distinct(final(deps).deep_view()),
        !final(deps).deep_view().contains(own@),
        x@ != own@ ==> final(deps).deep_view().to_set() == old(deps).deep_view().to_set().insert(
            x@,
        ),
        x@ == own@ ==> final(deps).deep_view() == old(deps).deep_view(),
{
    if x == *own || contains_str(deps, &x) {
        proof {
            if x@ != own@ {
                assert(old(deps).deep_view().to_set().insert(x@) =~= old(deps).deep_view().to_set());
            }
        }
        return;
    }
    let ghost before = deps.deep_view();
    deps.push(x);
    proof {
        assert(deps.deep_view() =~= before.push(x@));
        before.lemma_push_to_set_commute(x@);
    }
}

fn is_h(e: &String) -> (r: bool)
    ensures
        r == (e@ == seq!['h']),
{
    let c = chars_of(e.as_str());
    let r = c.len() == 1 && c[0] == 'h';
    proof {
        if r {
            assert(c@ =~= seq!['h']);
        }
    }
    r
}

/// The path ends in `.c`.
pub open spec fn ends_in_c(p: Seq<char>) -> bool {
    p.len() >= 2 && p[p.len() - 2] == '.' && p[p.len() - 1] == 'c'
}

fn ends_with_c(p: &String) -> (r: bool)
    ensures
        r == ends_in_c(p@),
{
    let c = chars_of(p.as_str());
    c.len() >= 2 && c[c.len() - 2] == '.' && c[c.len() - 1] == 'c'
}

/// What a name that resolved to an existing file leads to.
pub enum Outcome {
    /// The file itself, or the own header of a `.c` file: no edge.
    Skip,
    /// A file already visited in this walk: an edge, and no second walk of it.
    Edge,
    /// A file not yet visited: it is walked first, and the edge comes after.
    Descend,
}

/// A file whose absolute path is `own` passes over the resolved `target`: it is the file
/// itself, or `own` ends in `.c` and `target` is its header, at `own_header`.
pub open spec fn skipped(own: Seq<char>, own_header: Option<Seq<char>>, target: Seq<char>) -> bool {
    target == own || (ends_in_c(own) && own_header == Some(target))
}

/// What the resolved `target` leads to for the file at `own`, given the paths visited so far.
pub open spec fn outcome_of(
    own: Seq<char>,
    own_header: Option<Seq<char>>,
    target: Seq<char>,
    visited: Seq<Seq<char>>,
) -> Outcome {
    if skipped(own, own_header, target) {
        Outcome::Skip
    } else if visited.contains(target) {
        Outcome::Edge
    } else {
        Outcome::Descend
    }
}

/// Decides what the resolved `target_abs` leads to for the file at `own_abs`, whose header,
/// where it ends in `.c`, is at `own_header_abs`.
pub fn classify(
    own_abs: &String,
    own_header_abs: &Option<String>,
    target_abs: &String,
    visited: &Vec<String>,
) -> (r: Outcome)
    ensures
        r == outcome_of(own_abs@, opt_view(*own_header_abs), target_abs@, visited.deep_view()),
{
    let header_hit = match own_header_abs {
        Some(h) => *h == *target_abs,
        None => false,
    };
    if *target_abs == *own_abs || (ends_with_c(own_abs) && header_hit) {
        Outcome::Skip
    } else if contains_str(visited, target_abs) {
        Outcome::Edge
    } else {
        Outcome::Descend
    }
}

impl Frame {
    spec fn wf(&self) -> bool {
        &&& self.node.wf()
        &&& self.node.full_path@ == self.abs@
        &&& (self.stage is Probe || self.stage is Link) ==> self.next < self.names@.len()
    }

    fn start(path: String) -> (r: Frame)
        ensures
            r.wf(),
            r.path == path,
            r.stage is Open,
    {
        Frame {
            path,
            abs: String::new(),
            node: Dependency { file: String::new(), full_path: String::new(), dependencies: Vec::new() },
            names: Vec::new(),
            next: 0,
            cands: Vec::new(),
            cand: 0,
            target: String::new(),
            stage: Stage::Open,
        }
    }
}

proof fn lemma_graph_remove(g: Seq<Dependency>, i: int)
    requires
        graph_wf(g),
        0 <= i < g.len(),
    ensures
        graph_wf(g.remove(i)),
        !keys(g.remove(i)).contains(g[i].full_path@),
        forall|k: Seq<char>| keys(g.remove(i)).contains(k) ==> keys(g).contains(k),
        forall|k: Seq<char>|
            keys(g).contains(k) && k != g[i].full_path@ ==> keys(g.remove(i)).contains(k),
{
    let h = g.remove(i);
    assert(keys(h) =~= keys(g).remove(i));
    assert forall|k: int| 0 <= k < h.len() implies #[trigger] h[k].wf() by {
        if k < i {
            assert(h[k] == g[k]);
        } else {
            assert(h[k] == g[k + 1]);
        }
    }
    if keys(h).contains(g[i].full_path@) {
        let k = choose|k: int| 0 <= k < keys(h).len() && keys(h)[k] == g[i].full_path@;
        if k < i {
            assert(keys(g)[k] == keys(g)[i]);
        } else {
            assert(keys(g)[k + 1] == keys(g)[i]);
        }
    }
    assert forall|k: Seq<char>| keys(g).contains(k) && k != g[i].full_path@ implies keys(
        h,
    ).contains(k) by {
        let j = choose|j: int| 0 <= j < keys(g).len() && keys(g)[j] == k;
        if j < i {
            assert(keys(h)[j] == k);
        } else {
            assert(j != i);
            assert(keys(h)[j - 1] == k);
        }
    }
    assert forall|k: Seq<char>| keys(h).contains(k) implies keys(g).contains(k) by {
        let j = choose|j: int| 0 <= j < keys(h).len() && keys(h)[j] == k;
        if j < i {
            assert(keys(g)[j] == k);
        } else {
            assert(keys(g)[j + 1] == k);
        }
    }
}

proof fn lemma_unique(g: Seq<Dependency>, n: int, d: Dependency)
    requires
        graph_wf(g),
        0 <= n < g.len(),
        g.contains(d),
        d.full_path@ == g[n].full_path@,
    ensures
        d == g[n],
{
    let j = choose|j: int| 0 <= j < g.len() && g[j] == d;
    assert(keys(g)[j] == keys(g)[n]);
    if n < j {
        assert(keys(g)[n] != keys(g)[j]);
    } else if j < n {
        assert(keys(g)[j] != keys(g)[n]);
    }
}

proof fn lemma_push_contains(s: Seq<Seq<char>>, x: Seq<char>, k: Seq<char>)
    ensures
        s.push(x).contains(k) <==> (s.contains(k) || k == x),
{
    if s.contains(k) {
        let j = choose|j: int| 0 <= j < s.len() && s[j] == k;
        assert(s.push(x)[j] == k);
    }
    if k == x {
        assert(s.push(x)[s.len() as int] == k);
    }
    if s.push(x).contains(k) {
        let j = choose|j: int| 0 <= j < s.push(x).len() && s.push(x)[j] == k;
        if j < s.len() {
            assert(s[j] == k);
        }
    }
}

proof fn lemma_graph_push(g: Seq<Dependency>, d: Dependency)
    requires
        graph_wf(g),
        d.wf(),
        !keys(g).contains(d.full_path@),
    ensures
        graph_wf(g.push(d)),
        keys(g.push(d)) == keys(g).push(d.full_path@),
{
    let h = g.push(d);
    assert(keys(h) =~= keys(g).push(d.full_path@));
    assert forall|k: int| 0 <= k < h.len() implies #[trigger] h[k].wf() by {
        if k < g.len() {
            assert(h[k] == g[k]);
        }
    }
    assert forall|a: int, b: int| 0 <= a < b < keys(h).len() implies keys(h)[a] != keys(h)[b] by {
        if b == g.len() {
            assert(keys(g)[a] == keys(h)[a]);
        }
    }
}

impl IncludeWalker {
    /// The graph is well formed and so is every node under construction.
    pub closed spec fn wf(&self) -> bool {
        &&& self.core_wf()
        &&& self.pending matches Request::Exists(p) ==> {
            &&& self.stack@.len() > 0
            &&& 0 <= self.probe_index() < self.probe_list().len()
            &&& p@ == self.probe_list()[self.probe_index()]
            &&& self.stack@.last().next < self.stack@.last().names@.len()
        }
    }

    /// The edges recorded so far for the file being read.
    pub closed spec fn edges_in_progress(&self) -> Seq<Seq<char>> {
        self.stack@.last().node.dependencies.deep_view()
    }

    /// The absolute paths whose walk has started in this walk.
    pub closed spec fn visited_paths(&self) -> Seq<Seq<char>> {
        self.visited.deep_view()
    }

    /// The absolute path worked out last.
    pub closed spec fn last_resolved(&self) -> Seq<char> {
        self.resolved@
    }

    /// The absolute path of the header of a `.c` file, worked out last.
    pub closed spec fn last_header(&self) -> Option<Seq<char>> {
        self.resolved_header@
    }

    /// The absolute path of the file being read.
    pub closed spec fn current_abs(&self) -> Seq<char> {
        self.stack@.last().abs@
    }

    /// The file below the one being read waits for it, to link to `t`.
    pub closed spec fn links_below(&self, t: Seq<char>) -> bool {
        let n = self.stack@.len();
        n >= 2 && self.stack@[n - 2].stage is Link && self.stack@[n - 2].target@ == t
    }

    /// The file below the one being read is a header that waits for it, to fold in `t`.
    pub closed spec fn merges_below(&self, t: Seq<char>) -> bool {
        let n = self.stack@.len();
        n >= 2 && self.stack@[n - 2].stage is Merge && self.stack@[n - 2].target@ == t
    }

    /// Names found in the file being read remain to be resolved.
    pub closed spec fn names_left(&self) -> bool {
        &&& self.stack@.len() > 0
        &&& self.stack@.last().stage is Names
        &&& self.stack@.last().next < self.stack@.last().names@.len()
    }

    /// The names found in the file being read, in order.
    pub closed spec fn names_found(&self) -> Seq<Seq<char>> {
        self.stack@.last().names.deep_view()
    }

    /// The file being read is yet to be looked up and opened.
    pub closed spec fn opening(&self) -> bool {
        self.stack@.len() > 0 && self.stack@.last().stage is Open
    }

    /// The node of the file being read, as built so far.
    pub closed spec fn node_in_progress(&self) -> Dependency {
        self.stack@.last().node
    }

    /// The file being read is done, and its node is next to go into the graph.
    pub closed spec fn finishing(&self) -> bool {
        self.stack@.len() > 0 && self.stack@.last().stage is Finish
    }

    /// The file being read is a header whose source file, at `target_file`, is next to be
    /// folded into it.
    pub closed spec fn merging(&self) -> bool {
        self.stack@.len() > 0 && self.stack@.last().stage is Merge
    }

    /// Every name found in the file being read has been dealt with.
    pub closed spec fn names_done(&self) -> bool {
        &&& self.stack@.len() > 0
        &&& self.stack@.last().stage is Names
        &&& self.stack@.last().next >= self.stack@.last().names@.len()
    }

    /// The file being read has just had the file at `target_file` walked, and the edge to it
    /// comes next.
    pub closed spec fn linking(&self) -> bool {
        self.stack@.len() > 0 && self.stack@.last().stage is Link
    }

    /// The absolute path of the file to be linked to or folded in.
    pub closed spec fn target_file(&self) -> Seq<char> {
        self.stack@.last().target@
    }

    /// Which name of the file being read is being resolved.
    pub closed spec fn name_index(&self) -> int {
        self.stack@.last().next as int
    }

    spec fn core_wf(&self) -> bool {
        &&& graph_wf(self.graph@)
        &&& forall|i: int| 0 <= i < self.stack@.len() ==> #[trigger] self.stack@[i].wf()
    }

    /// The paths tried for the name being resolved, in order.
    pub closed spec fn probe_list(&self) -> Seq<Seq<char>> {
        self.stack@.last().cands.deep_view()
    }

    /// Which of `probe_list` is being tried.
    pub closed spec fn probe_index(&self) -> int {
        self.stack@.last().cand as int
    }

    /// How many files are being read, one inside the other.
    pub closed spec fn depth(&self) -> nat {
        self.stack@.len()
    }

    /// The file being read: the one in which the name being resolved was found.
    pub closed spec fn current_file(&self) -> Seq<char> {
        self.stack@.last().path@
    }

    /// The name being resolved.
    pub closed spec fn probe_name(&self) -> Seq<char> {
        self.stack@.last().names.deep_view()[self.stack@.last().next as int]
    }

    /// The paths tried for a name come in a fixed order: the one beside the file in which
    /// the name was found first, then one under each search directory, in the order the
    /// directories were added.
    pub proof fn law_colocated_first(dirs: Seq<Seq<char>>, path: Seq<char>, name: Seq<char>)
        ensures
            candidates_of(dirs, path, name).len() == dirs.len() + 1,
            candidates_of(dirs, path, name)[0] == joined(dir_of(path), name),
            forall|k: int|
                0 <= k < dirs.len() ==> #[trigger] candidates_of(dirs, path, name)[k + 1] == joined(
                    dirs[k],
                    name,
                ),
    {
    }

    /// Every node is well formed: none depends on itself, and no path keys two nodes.
    pub proof fn law_graph_wf(&self)
        requires
            self.wf(),
        ensures
            graph_wf(self.nodes()),
    {
    }

    /// The search directories, in the order they are tried.
    pub closed spec fn dirs(&self) -> Seq<Seq<char>> {
        self.search_directory.deep_view()
    }

    /// The nodes of the graph.
    pub closed spec fn nodes(&self) -> Seq<Dependency> {
        self.graph@
    }

    /// What the walk waits for.
    pub closed spec fn waiting(&self) -> Request {
        self.pending
    }

    /// An empty walker: no search directories and an empty graph.
    pub fn new() -> (r: Self)
        ensures
            r.wf(),
            r.dirs() == Seq::<Seq<char>>::empty(),
            r.nodes() == Seq::<Dependency>::empty(),
            r.waiting() is Done,
    {
        let r = IncludeWalker {
            search_directory: Vec::new(),
            graph: Vec::new(),
            visited: Vec::new(),
            stack: Vec::new(),
            pending: Request::Done,
            resolved: Ghost(Seq::empty()),
            resolved_header: Ghost(None),
        };
        assert(r.dirs() =~= Seq::<Seq<char>>::empty());
        r
    }

    /// Adds a directory at the end of the search list.
    pub fn append_dir(&mut self, path: &str)
        requires
            old(self).wf(),
        ensures
            final(self).wf(),
            final(self).dirs() == old(self).dirs().push(path@),
            final(self).nodes() == old(self).nodes(),
    {
        let ghost before = self.dirs();
        self.search_directory.push(path.to_string());
        assert(self.dirs() =~= before.push(path@));
    }

    /// What the walk waits for.
    pub fn pending(&self) -> (r: &Request)
        ensures
            *r == self.waiting(),
    {
        &self.pending
    }

    /// The paths tried for `name`, found in the file at `path`: beside that file first, then
    /// under each search directory in order.
    pub fn candidates(&self, path: &str, name: &str) -> (r: Vec<String>)
        ensures
            r.deep_view() == candidates_of(self.dirs(), path@, name@),
            r@.len() >= 1,
    {
        let mut r: Vec<String> = Vec::new();
        let dir = parent_dir(path);
        r.push(join_path(dir.as_str(), name));
        let mut i: usize = 0;
        while i < self.search_directory.len()
            invariant
                i <= self.search_directory@.len(),
                r.deep_view() =~= seq![joined(dir_of(path@), name@)] + self.dirs().take(
                    i as int,
                ).map_values(|d: Seq<char>| joined(d, name@)),
            decreases self.search_directory@.len() - i,
        {
            let ghost before = r.deep_view();
            let p = join_path(self.search_directory[i].as_str(), name);
            assert(self.search_directory@[i as int]@ == self.dirs()[i as int]);
            r.push(p);
            assert(r.deep_view() =~= before.push(p@));
            assert(self.dirs().take(i + 1) =~= self.dirs().take(i as int).push(self.dirs()[i as int]));
            assert(self.dirs().take(i + 1).map_values(|d: Seq<char>| joined(d, name@)) =~= self.dirs().take(
                i as int,
            ).map_values(|d: Seq<char>| joined(d, name@)).push(joined(self.dirs()[i as int], name@)));
            i = i + 1;
        }
        assert(self.dirs().take(i as int) =~= self.dirs());
        r
    }

    fn settle(&mut self)
        requires
            old(self).core_wf(),
        ensures
            final(self).wf(),
            final(self).pending is Step || final(self).pending is Done,
            final(self).graph == old(self).graph,
            final(self).resolved == old(self).resolved,
            final(self).stack == old(self).stack,
            final(self).visited == old(self).visited,
            final(self).search_directory == old(self).search_directory,
    {
        if self.stack.len() == 0 {
            self.pending = Request::Done;
        } else {
            self.pending = Request::Step;
        }
    }

    fn fail(&mut self)
        requires
            old(self).core_wf(),
        ensures
            final(self).wf(),
            final(self).graph == old(self).graph,
            final(self).search_directory == old(self).search_directory,
            final(self).pending is Failed,
    {
        self.stack = Vec::new();
        self.pending = Request::Failed;
    }

    /// Starts a walk from the file at `root`, with nothing visited yet. The walk then goes on
    /// by `step`, `answer_read` and `answer_exists`, as `pending` asks.
    pub fn walk(&mut self, root: &str)
        requires
            old(self).wf(),
        ensures
            final(self).wf(),
            final(self).nodes() == old(self).nodes(),
            final(self).dirs() == old(self).dirs(),
            final(self).waiting() is Step,
            final(self).depth() == 1,
            final(self).opening(),
            final(self).current_file() == root@,
            final(self).visited_paths() == Seq::<Seq<char>>::empty(),
    {
        self.visited = Vec::new();
        assert(self.visited.deep_view() =~= Seq::<Seq<char>>::empty());
        self.stack = Vec::new();
        self.stack.push(Frame::start(root.to_string()));
        self.pending = Request::Step;
    }

    /// Takes the answer to a `Read` request: the file's contents, or `None` where it could
    /// not be read, in which case the file gets no node. Does nothing when no `Read` is
    /// pending.
    pub fn answer_read(&mut self, contents: Option<String>)
        requires
            old(self).wf(),
        ensures
            final(self).wf(),
            final(self).nodes() == old(self).nodes(),
            final(self).dirs() == old(self).dirs(),
            old(self).waiting() is Read && old(self).depth() > 0 ==> match contents {
                None => final(self).depth() == old(self).depth() - 1,
                Some(text) => {
                    &&& final(self).depth() == old(self).depth()
                    &&& final(self).waiting() is Step
                    &&& final(self).current_file() == old(self).current_file()
                    &&& final(self).names_found() == scanned(text@)
                    &&& final(self).name_index() == 0
                    &&& final(self).node_in_progress().file@ == with_ext_of(
                        old(self).current_file(),
                        Seq::empty(),
                    )
                    &&& final(self).edges_in_progress() == Seq::<Seq<char>>::empty()
                },
            },
    {
        if !matches!(self.pending, Request::Read(_)) {
            return;
        }
        let mut f = match self.pop_frame() {
            Some(f) => f,
            None => {
                self.pending = Request::Done;
                return;
            },
        };
        match contents {
            None => {
                self.settle();
            },
            Some(text) => {
                proof {
                    reveal_strlit("");
                    assert(""@ =~= Seq::<char>::empty());
                }
                f.names = parse_includes(text.as_str());
                f.node = Dependency {
                    file: with_extension(f.path.as_str(), ""),
                    full_path: f.abs.clone(),
                    dependencies: Vec::new(),
                };
                f.next = 0;
                f.stage = Stage::Names;
                self.stack.push(f);
                assert(self.stack@.last() == f);
                assert(f.node.dependencies.deep_view() =~= Seq::<Seq<char>>::empty());
                self.pending = Request::Step;
            },
        }
    }

    /// Moves the frame `f` on to the name after the current one.
    fn next_name(&mut self, f: Frame)
        requires
            old(self).core_wf(),
            f.wf(),
        ensures
            final(self).wf(),
            final(self).graph == old(self).graph,
            final(self).search_directory == old(self).search_directory,
            final(self).pending is Step,
            final(self).stack@.last().node == f.node,
            final(self).stack@ == old(self).stack@.push(final(self).stack@.last()),
            final(self).resolved == old(self).resolved,
            final(self).resolved_header == old(self).resolved_header,
            final(self).visited == old(self).visited,
            f.next < f.names@.len() ==> final(self).stack@.last().next == f.next + 1,
    {
        let mut f = f;
        if f.next < f.names.len() {
            f.next = f.next + 1;
        }
        f.stage = Stage::Names;
        self.stack.push(f);
        self.pending = Request::Step;
    }

    /// Takes the answer to an `Exists` request. The first candidate path that exists is the
    /// one a name resolves to; where none exists, the name adds no edge and the walk goes on
    /// with the next name. Does nothing when no `Exists` is pending.
    pub fn answer_exists(&mut self, found: bool)
        requires
            old(self).wf(),
        ensures
            final(self).wf(),
            final(self).nodes() == old(self).nodes(),
            final(self).dirs() == old(self).dirs(),
            old(self).waiting() is Exists && !found && old(self).probe_index() + 1 < old(self).probe_list().len() ==> {
                &&& final(self).probe_list() == old(self).probe_list()
                &&& final(self).probe_index() == old(self).probe_index() + 1
                &&& final(self).waiting() matches Request::Exists(p) && p@ == old(self).probe_list()[old(self).probe_index() + 1]
            },
            old(self).waiting() is Exists && !found && old(self).probe_index() + 1 >= old(self).probe_list().len() ==> {
                &&& final(self).waiting() is Step
                &&& final(self).edges_in_progress() == old(self).edges_in_progress()
                &&& final(self).name_index() == old(self).name_index() + 1
            },
            old(self).waiting() is Exists && found && !(final(self).waiting() is Failed) ==> {
                let t = final(self).last_resolved();
                &&& final(self).waiting() is Step
                &&& match outcome_of(
                    old(self).current_abs(),
                    final(self).last_header(),
                    t,
                    old(self).visited_paths(),
                ) {
                    Outcome::Skip => {
                        &&& final(self).depth() == old(self).depth()
                        &&& final(self).edges_in_progress() == old(self).edges_in_progress()
                        &&& final(self).name_index() == old(self).name_index() + 1
                    },
                    Outcome::Edge => {
                        &&& final(self).depth() == old(self).depth()
                        &&& final(self).edges_in_progress().to_set() == old(
                            self,
                        ).edges_in_progress().to_set().insert(t)
                        &&& final(self).name_index() == old(self).name_index() + 1
                    },
                    Outcome::Descend => {
                        &&& final(self).depth() == old(self).depth() + 1
                        &&& final(self).opening()
                        &&& final(self).current_file() == old(self).probe_list()[old(
                            self,
                        ).probe_index()]
                        &&& final(self).links_below(t)
                    },
                }
            },
    {
        if !matches!(self.pending, Request::Exists(_)) {
            return;
        }
        let mut f = match self.pop_frame() {
            Some(f) => f,
            None => {
                self.pending = Request::Done;
                return;
            },
        };
        if f.cand >= f.cands.len() {
            self.next_name(f);
            return;
        }
        if !found {
            f.cand = f.cand + 1;
            if f.cand < f.cands.len() {
                self.pending = Request::Exists(f.cands[f.cand].clone());
                self.stack.push(f);
                assert(self.stack@.last() == f);
            } else {
                self.next_name(f);
            }
            return;
        }
        let file = f.cands[f.cand].clone();
        let fabs = match get_abs_name(file.as_str()) {
            Some(a) => a,
            None => {
                self.fail();
                return;
            },
        };
        let header_abs: Option<String> = if ends_with_c(&f.abs) {
            proof {
                reveal_strlit("h");
                assert("h"@ =~= seq!['h']);
            }
            let header = with_extension(f.path.as_str(), "h");
            match get_abs_name(header.as_str()) {
                Some(h) => Some(h),
                None => {
                    self.fail();
                    return;
                },
            }
        } else {
            None
        };
        self.resolved = Ghost(fabs@);
        self.resolved_header = Ghost(opt_view(header_abs));
        match classify(&f.abs, &header_abs, &fabs, &self.visited) {
            Outcome::Skip => {
                self.next_name(f);
            },
            Outcome::Edge => {
                add_edge(&mut f.node.dependencies, fabs, &f.abs);
                self.next_name(f);
            },
            Outcome::Descend => {
                f.target = fabs;
                f.stage = Stage::Link;
                self.stack.push(f);
                self.stack.push(Frame::start(file));
                self.pending = Request::Step;
            },
        }
    }

    fn pop_frame(&mut self) -> (r: Option<Frame>)
        requires
            old(self).core_wf(),
        ensures
            final(self).core_wf(),
            old(self).stack@.len() > 0 ==> r == Some(old(self).stack@.last()),
            old(self).stack@.len() > 0 ==> final(self).stack@ == old(self).stack@.drop_last(),
            final(self).graph == old(self).graph,
            final(self).search_directory == old(self).search_directory,
            final(self).visited == old(self).visited,
            final(self).pending == old(self).pending,
            r matches Some(f) ==> f.wf(),
    {
        let r = self.stack.pop();
        proof {
            if r is Some {
                let n = old(self).stack@.len() - 1;
                assert(old(self).stack@[n].wf());
                assert(self.stack@ =~= old(self).stack@.take(n));
                assert forall|i: int| 0 <= i < self.stack@.len() implies #[trigger] self.stack@[
                    i
                ].wf() by {
                    assert(self.stack@[i] == old(self).stack@[i]);
                }
            }
        }
        r
    }

    /// Folds the node of the source file at `f.target`, if the graph has one, into the
    /// node of `f`, and takes it out of the graph.
    fn merge_source(&mut self, frame: Frame)
        requires
            old(self).core_wf(),
            frame.wf(),
        ensures
            final(self).wf(),
            final(self).search_directory == old(self).search_directory,
            final(self).pending is Step,
            final(self).stack@ == old(self).stack@.push(final(self).stack@.last()),
            final(self).stack@.last().stage is Finish,
            final(self).stack@.last().node.full_path == frame.node.full_path,
            !keys(final(self).graph@).contains(frame.target@),
            forall|n: Dependency|
                old(self).graph@.contains(n) && n.full_path@ == frame.target@
                    ==> final(self).stack@.last().node.dependencies.deep_view().to_set()
                    == frame.node.dependencies.deep_view().to_set().union(
                    n.dependencies.deep_view().to_set(),
                ).remove(frame.node.full_path@),
            !keys(old(self).graph@).contains(frame.target@) ==> final(self).stack@.last().node.dependencies
                == frame.node.dependencies,
    {
        let mut f = frame;
        let ghost start = f.node.dependencies.deep_view().to_set();
        let ghost g0 = self.graph@;
        match find_node(&self.graph, &f.target) {
            Some(i) => {
                proof {
                    lemma_graph_remove(self.graph@, i as int);
                }
                let d = self.graph.remove(i);
                let ghost ds = d.dependencies.deep_view();
                let ghost f0 = f;
                let mut k: usize = 0;
                while k < d.dependencies.len()
                    invariant
                        f.wf(),
                        k <= d.dependencies@.len(),
                        ds == d.dependencies.deep_view(),
                        f.target == f0.target,
                        f.abs == f0.abs,
                        f.node.full_path == f0.node.full_path,
                        !start.contains(f.abs@),
                        f.node.dependencies.deep_view().to_set() == start.union(
                            ds.take(k as int).to_set(),
                        ).remove(f.abs@),
                    decreases d.dependencies@.len() - k,
                {
                    let x = d.dependencies[k].clone();
                    add_edge(&mut f.node.dependencies, x, &f.abs);
                    proof {
                        assert(ds.take(k + 1) =~= ds.take(k as int).push(ds[k as int]));
                        ds.take(k as int).lemma_push_to_set_commute(ds[k as int]);
                        assert(f.node.dependencies.deep_view().to_set() =~= start.union(
                            ds.take(k + 1).to_set(),
                        ).remove(f.abs@));
                    }
                    k = k + 1;
                }
                assert(ds.take(k as int) =~= ds);
                assert forall|n: Dependency|
                    g0.contains(n) && n.full_path@ == f.target@ implies n == d by {
                    lemma_unique(g0, i as int, n);
                }
                assert(keys(g0)[i as int] == f.target@);
                assert(keys(g0).contains(frame.target@));
                assert(start == frame.node.dependencies.deep_view().to_set());
                assert(f.node.dependencies.deep_view().to_set() == start.union(ds.to_set()).remove(
                    frame.node.full_path@,
                ));
                assert forall|n: Dependency|
                    g0.contains(n) && n.full_path@ == frame.target@ implies f.node.dependencies.deep_view().to_set()
                    == start.union(n.dependencies.deep_view().to_set()).remove(
                    frame.node.full_path@,
                ) by {
                    lemma_unique(g0, i as int, n);
                }
            },
            None => {
                assert(start.remove(f.abs@) =~= start);
                assert(f.node.dependencies == frame.node.dependencies);
                assert forall|n: Dependency| g0.contains(n) implies keys(g0).contains(n.full_path@) by {
                    let j = choose|j: int| 0 <= j < g0.len() && g0[j] == n;
                    assert(keys(g0)[j] == n.full_path@);
                }
            },
        }
        f.stage = Stage::Finish;
        self.stack.push(f);
        assert(self.stack@.last() == f);
        self.pending = Request::Step;
    }

    /// Puts the finished node of `f` into the graph, in place of any node under its path.
    fn finish_node(&mut self, f: Frame)
        requires
            old(self).core_wf(),
            f.wf(),
        ensures
            final(self).wf(),
            final(self).search_directory == old(self).search_directory,
            final(self).graph@.last() == f.node,
            final(self).pending is Step || final(self).pending is Done,
            forall|k: Seq<char>|
                keys(final(self).graph@).contains(k) <==> (keys(old(self).graph@).contains(k)
                    || k == f.node.full_path@),
    {
        let ghost g0 = self.graph@;
        match find_node(&self.graph, &f.abs) {
            Some(i) => {
                proof {
                    lemma_graph_remove(self.graph@, i as int);
                }
                self.graph.remove(i);
            },
            None => {},
        }
        let ghost g1 = self.graph@;
        let ghost key = f.node.full_path@;
        proof {
            lemma_graph_push(self.graph@, f.node);
        }
        self.graph.push(f.node);
        proof {
            assert forall|k: Seq<char>|
                keys(self.graph@).contains(k) <==> (keys(g0).contains(k) || k == key) by {
                lemma_push_contains(keys(g1), key, k);
            }
        }
        self.settle();
    }

    /// Makes one move that needs nothing from outside. Does nothing unless `Step` is
    /// pending.
    pub fn step(&mut self)
        requires
            old(self).wf(),
        ensures
            final(self).wf(),
            final(self).dirs() == old(self).dirs(),
            old(self).waiting() is Step && old(self).opening() ==> {
                let abs = final(self).last_resolved();
                ||| final(self).waiting() is Failed
                ||| {
                    &&& final(self).depth() == old(self).depth() - 1
                    &&& final(self).nodes() == old(self).nodes()
                    &&& keys(old(self).nodes()).contains(abs)
                }
                ||| {
                    &&& final(self).depth() == old(self).depth()
                    &&& asks_to_read(final(self).waiting(), old(self).current_file())
                    &&& final(self).nodes() == old(self).nodes()
                    &&& !keys(old(self).nodes()).contains(abs)
                    &&& final(self).current_abs() == abs
                    &&& final(self).visited_paths().contains(abs)
                }
            },
            old(self).waiting() is Step && old(self).names_left() ==> {
                &&& final(self).waiting() is Exists
                &&& final(self).depth() == old(self).depth()
                &&& final(self).nodes() == old(self).nodes()
            },
            old(self).waiting() is Step && old(self).names_done() && ext_of(old(self).current_file())
                != Some(seq!['h']) ==> final(self).finishing() && final(self).depth() == old(self).depth(),
            old(self).waiting() is Step && old(self).names_done() && ext_of(old(self).current_file())
                == Some(seq!['h']) ==> {
                let c = final(self).last_resolved();
                ||| final(self).waiting() is Failed
                ||| {
                    &&& final(self).merging()
                    &&& final(self).depth() == old(self).depth()
                    &&& final(self).target_file() == c
                    &&& old(self).visited_paths().contains(c)
                }
                ||| {
                    &&& final(self).opening()
                    &&& final(self).depth() == old(self).depth() + 1
                    &&& final(self).current_file() == with_ext_of(old(self).current_file(), seq!['c'])
                    &&& final(self).merges_below(c)
                    &&& !old(self).visited_paths().contains(c)
                }
            },
            old(self).waiting() is Step && old(self).linking() ==> {
                &&& final(self).depth() == old(self).depth()
                &&& final(self).waiting() is Step
                &&& final(self).name_index() == old(self).name_index() + 1
                &&& old(self).target_file() != old(self).node_in_progress().full_path@
                    ==> final(self).edges_in_progress().to_set()
                    == old(self).edges_in_progress().to_set().insert(old(self).target_file())
            },
            old(self).waiting() is Step && final(self).waiting() is Exists ==> {
                &&& final(self).probe_list() == candidates_of(
                    final(self).dirs(),
                    final(self).current_file(),
                    final(self).probe_name(),
                )
                &&& final(self).probe_index() == 0
            },
            old(self).waiting() is Step && old(self).finishing() ==> {
                &&& final(self).nodes().last() == old(self).node_in_progress()
                &&& forall|k: Seq<char>|
                    keys(final(self).nodes()).contains(k) <==> (keys(old(self).nodes()).contains(k)
                        || k == old(self).node_in_progress().full_path@)
            },
            old(self).waiting() is Step && old(self).merging() ==> {
                let own = old(self).node_in_progress().full_path@;
                let target = old(self).target_file();
                &&& !keys(final(self).nodes()).contains(target)
                &&& final(self).finishing()
                &&& final(self).node_in_progress().full_path == old(self).node_in_progress().full_path
                &&& forall|n: Dependency|
                    old(self).nodes().contains(n) && n.full_path@ == target
                        ==> final(self).edges_in_progress().to_set()
                        == old(self).edges_in_progress().to_set().union(
                        n.dependencies.deep_view().to_set(),
                    ).remove(own)
                &&& !keys(old(self).nodes()).contains(target) ==> final(self).edges_in_progress()
                    == old(self).edges_in_progress()
            },
    {
        if !matches!(self.pending, Request::Step) {
            return;
        }
        let mut f = match self.pop_frame() {
            Some(f) => f,
            None => {
                self.pending = Request::Done;
                return;
            },
        };
        match f.stage {
            Stage::Open => {
                let abs = match get_abs_name(f.path.as_str()) {
                    Some(a) => a,
                    None => {
                        self.fail();
                        return;
                    },
                };
                self.resolved = Ghost(abs@);
                match find_node(&self.graph, &abs) {
                    Some(i) => {
                        assert(keys(self.graph@)[i as int] == abs@);
                        assert(keys(self.graph@).contains(abs@));
                        self.settle();
                        return;
                    },
                    None => {},
                }
                if !contains_str(&self.visited, &abs) {
                    let ghost before = self.visited.deep_view();
                    self.visited.push(abs.clone());
                    assert(self.visited.deep_view() =~= before.push(abs@));
                    assert(self.visited.deep_view()[before.len() as int] == abs@);
                }
                assert(self.visited.deep_view().contains(abs@));
                f.abs = abs.clone();
                f.node.full_path = abs;
                f.node.dependencies = Vec::new();
                self.pending = Request::Read(f.path.clone());
                self.stack.push(f);
                assert(self.stack@.last() == f);
            },
            Stage::Names => {
                if f.next < f.names.len() {
                    let cands = self.candidates(f.path.as_str(), f.names[f.next].as_str());
                    f.cands = cands;
                    f.cand = 0;
                    f.stage = Stage::Probe;
                    self.pending = Request::Exists(f.cands[0].clone());
                    self.stack.push(f);
                    assert(self.stack@.last() == f);
                    return;
                }
                let header = match extension(f.path.as_str()) {
                    Some(e) => is_h(&e),
                    None => false,
                };
                if !header {
                    f.stage = Stage::Finish;
                    self.stack.push(f);
                    assert(self.stack@.last() == f);
                    self.pending = Request::Step;
                    return;
                }
                proof {
                    reveal_strlit("c");
                    assert("c"@ =~= seq!['c']);
                }
                let source = with_extension(f.path.as_str(), "c");
                let sabs = match get_abs_name(source.as_str()) {
                    Some(a) => a,
                    None => {
                        self.fail();
                        return;
                    },
                };
                self.resolved = Ghost(sabs@);
                let descend = !contains_str(&self.visited, &sabs);
                f.target = sabs;
                f.stage = Stage::Merge;
                self.stack.push(f);
                assert(self.stack@.last() == f);
                if descend {
                    self.stack.push(Frame::start(source));
                }
                self.pending = Request::Step;
            },
            Stage::Probe => {
                self.stack.push(f);
            },
            Stage::Link => {
                let t = f.target.clone();
                add_edge(&mut f.node.dependencies, t, &f.abs);
                self.next_name(f);
            },
            Stage::Merge => {
                self.merge_source(f);
            },
            Stage::Finish => {
                self.finish_node(f);
            },
        }
    }

    /// The node for the file whose absolute path is `full_path`, if the graph has one.
    pub fn node(&self, full_path: &str) -> (r: Option<&Dependency>)
        ensures
            r matches Some(d) ==> self.nodes().contains(*d) && d.full_path@ == full_path@,
            r is None ==> !keys(self.nodes()).contains(full_path@),
    {
        let key = full_path.to_string();
        match find_node(&self.graph, &key) {
            Some(i) => Some(&self.graph[i]),
            None => None,
        }
    }
}

} // verus!
