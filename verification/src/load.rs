//! From a configuration as it was written to one that can be planned: other
//! files are brought in, subgraphs are expanded, what is not supported is
//! refused.
//!
//! Reading files and their text is outside. [`IncludeWalk`] says which file
//! comes next and takes in what was read.

use crate::config::{subgraph_views, GraphConfig, GraphView, SubgraphConfig, SubgraphView};
use crate::expand::{expand, expanded};
use crate::plan::{plan_problem, GraphPlan};
use crate::status::{Error, ErrorView};
use crate::supported::graph_problem;
use crate::text::{cat2, cat4, cat5, text_less, text_less_irreflexive, text_less_transitive, texts};
use crate::text_map::TextMap;
use std::collections::VecDeque;
use vstd::prelude::*;

verus! {

// ------------------------------------------------------------------ from text

/// What the text of a configuration comes to once it was parsed.
pub open spec fn loaded(g: GraphView) -> Result<GraphView, ErrorView> {
    if g.includes.len() > 0 {
        Err(
            ErrorView::InvalidArg(
                "`include` is only supported when loading from a file (from_yaml_file); relative paths cannot be resolved from a text string"@,
            ),
        )
    } else {
        accepted(g)
    }
}

/// What a configuration comes to once its other files were brought in.
pub open spec fn accepted(g: GraphView) -> Result<GraphView, ErrorView> {
    match expanded(g) {
        Err(e) => Err(e),
        Ok(flat) => match graph_problem(flat) {
            Some(e) => Err(e),
            None => Ok(flat),
        },
    }
}

/// What a configuration comes to when it is planned as well.
pub open spec fn preflighted(r: Result<GraphView, ErrorView>, parallelism: usize) -> Result<
    GraphView,
    ErrorView,
> {
    match r {
        Err(e) => Err(e),
        Ok(flat) => match plan_problem(flat, parallelism) {
            Some(e) => Err(e),
            None => Ok(flat),
        },
    }
}

/// Whether a result is the one that is described.
pub open spec fn comes_to(r: Result<GraphConfig, Error>, s: Result<GraphView, ErrorView>) -> bool {
    match s {
        Ok(g) => r matches Ok(c) && c@ == g,
        Err(e) => r matches Err(x) && x@ == e,
    }
}

/// The error about a text that cannot be parsed.
pub fn parse_failure(detail: &str) -> (e: Error)
    ensures
        e@ == ErrorView::InvalidArg("YAML parse failed: "@ + detail@),
{
    Error::InvalidArg(cat2("YAML parse failed: ", detail))
}

/// The error about a file that cannot be read.
pub fn read_failure(path: &str, detail: &str) -> (e: Error)
    ensures
        e@ == ErrorView::InvalidArg("failed to read `"@ + path@ + "`: "@ + detail@),
{
    Error::InvalidArg(cat4("failed to read `", path, "`: ", detail))
}

impl GraphConfig {
    /// Prepares a configuration that was parsed from a text: a text brings no
    /// other files in.
    pub fn from_yaml(parsed: GraphConfig) -> (r: Result<GraphConfig, Error>)
        ensures
            comes_to(r, loaded(parsed@)),
    {
        if parsed.includes.len() > 0 {
            return Err(
                Error::InvalidArg(
                    "`include` is only supported when loading from a file (from_yaml_file); relative paths cannot be resolved from a text string".to_owned(),
                ),
            );
        }
        GraphConfig::from_yaml_file(parsed)
    }

    /// Prepares a configuration that was parsed from a file, with the
    /// subgraphs of other files brought in.
    pub fn from_yaml_file(merged: GraphConfig) -> (r: Result<GraphConfig, Error>)
        ensures
            comes_to(r, accepted(merged@)),
    {
        match expand(merged) {
            Ok(flat) => match flat.check_supported() {
                Ok(_) => Ok(flat),
                Err(e) => Err(e),
            },
            Err(e) => Err(e),
        }
    }

    /// Prepares a configuration that was parsed from a text, and plans it.
    pub fn preflight_from_yaml(parsed: GraphConfig, parallelism: usize) -> (r: Result<
        GraphConfig,
        Error,
    >)
        ensures
            comes_to(r, preflighted(loaded(parsed@), parallelism)),
    {
        match GraphConfig::from_yaml(parsed) {
            Ok(flat) => match GraphPlan::build(flat, parallelism) {
                Ok(plan) => Ok(plan.config),
                Err(e) => Err(e),
            },
            Err(e) => Err(e),
        }
    }

    /// Prepares a configuration that was parsed from a file, and plans it.
    pub fn preflight_from_yaml_file(merged: GraphConfig, parallelism: usize) -> (r: Result<
        GraphConfig,
        Error,
    >)
        ensures
            comes_to(r, preflighted(accepted(merged@), parallelism)),
    {
        match GraphConfig::from_yaml_file(merged) {
            Ok(flat) => match GraphPlan::build(flat, parallelism) {
                Ok(plan) => Ok(plan.config),
                Err(e) => Err(e),
            },
            Err(e) => Err(e),
        }
    }
}

// ----------------------------------------------------------------- other files

/// A file that is being brought in.
struct Frame {
    rel: String,
    base: String,
    rest: VecDeque<String>,
    subgraphs: TextMap<SubgraphConfig>,
}

/// The way through the files that a configuration brings in, each file once,
/// the files of a file before the file itself.
pub struct IncludeWalk {
    subgraphs: TextMap<SubgraphConfig>,
    visited: TextMap<bool>,
    frames: Vec<Frame>,
}

#[verifier::ext_equal]
pub struct FrameView {
    /// The name by which the file was brought in.
    pub rel: Seq<char>,
    /// The directory of the file.
    pub base: Seq<char>,
    /// What the file brings in itself, as far as it is still to come.
    pub rest: Seq<Seq<char>>,
    pub subgraphs: Map<Seq<char>, SubgraphView>,
}

#[verifier::ext_equal]
pub struct WalkView {
    /// What was brought in so far.
    pub subgraphs: Map<Seq<char>, SubgraphView>,
    /// The files that were met.
    pub visited: Set<Seq<char>>,
    /// The files that are not through, each brought in by the one before.
    pub frames: Seq<FrameView>,
}

/// A file to be found: its name and the directory that it is relative to.
pub struct Wanted {
    pub base: String,
    pub rel: String,
}

impl View for Frame {
    type V = FrameView;

    closed spec fn view(&self) -> FrameView {
        FrameView {
            rel: self.rel@,
            base: self.base@,
            rest: texts(self.rest@),
            subgraphs: subgraph_views(self.subgraphs@),
        }
    }
}

impl View for IncludeWalk {
    type V = WalkView;

    closed spec fn view(&self) -> WalkView {
        WalkView {
            subgraphs: subgraph_views(self.subgraphs@),
            visited: self.visited@.dom(),
            frames: Seq::new(self.frames@.len(), |i: int| self.frames@[i]@),
        }
    }
}

/// Whether a name is in both maps, and no earlier name is.
pub open spec fn first_in_both(
    a: Map<Seq<char>, SubgraphView>,
    b: Map<Seq<char>, SubgraphView>,
    name: Seq<char>,
) -> bool {
    &&& a.contains_key(name)
    &&& b.contains_key(name)
    &&& forall|k: Seq<char>| #[trigger]
        a.contains_key(k) && b.contains_key(k) && k != name ==> text_less(name, k)
}

/// The subgraphs of a file together with those that were there, or the first
/// name that both have.
pub open spec fn merged(
    a: Map<Seq<char>, SubgraphView>,
    b: Map<Seq<char>, SubgraphView>,
    rel: Seq<char>,
) -> Result<Map<Seq<char>, SubgraphView>, ErrorView> {
    if a.dom().disjoint(b.dom()) {
        Ok(a.union_prefer_right(b))
    } else {
        let name = choose|name: Seq<char>| first_in_both(a, b, name);
        Err(
            ErrorView::InvalidArg(
                "subgraph `"@ + name + "` defined more than once (via include `"@ + rel + "`)"@,
            ),
        )
    }
}

impl WalkView {
    /// The walk with every file that is through taken in, and the file that
    /// is wanted next, if there is one.
    pub open spec fn advanced(self) -> Result<
        (WalkView, Option<(Seq<char>, Seq<char>)>),
        ErrorView,
    >
        decreases self.frames.len(),
    {
        if self.frames.len() == 0 {
            Ok((self, None))
        } else {
            let top = self.frames.last();
            if top.rest.len() > 0 {
                Ok(
                    (
                        WalkView {
                            frames: self.frames.drop_last().push(
                                FrameView { rest: top.rest.drop_first(), ..top },
                            ),
                            ..self
                        },
                        Some((top.base, top.rest[0])),
                    ),
                )
            } else {
                match merged(self.subgraphs, top.subgraphs, top.rel) {
                    Err(e) => Err(e),
                    Ok(m) => (WalkView {
                        subgraphs: m,
                        frames: self.frames.drop_last(),
                        ..self
                    }).advanced(),
                }
            }
        }
    }
}

proof fn lemma_first_is_unique(
    a: Map<Seq<char>, SubgraphView>,
    b: Map<Seq<char>, SubgraphView>,
    name: Seq<char>,
    rel: Seq<char>,
)
    requires
        first_in_both(a, b, name),
    ensures
        merged(a, b, rel) == Err::<Map<Seq<char>, SubgraphView>, ErrorView>(
            ErrorView::InvalidArg(
                "subgraph `"@ + name + "` defined more than once (via include `"@ + rel + "`)"@,
            ),
        ),
{
    assert(a.dom().contains(name) && b.dom().contains(name));
    let other = choose|n: Seq<char>| first_in_both(a, b, n);
    if other != name {
        assert(a.contains_key(other) && a.contains_key(name));
        text_less_transitive(name, other, name);
        text_less_irreflexive(name);
    }
}

/// The error about a file that cannot be found or read.
pub fn include_failure(rel: &str, detail: &str) -> (e: Error)
    ensures
        e@ == ErrorView::InvalidArg("include `"@ + rel@ + "`: "@ + detail@),
{
    Error::InvalidArg(cat4("include `", rel, "`: ", detail))
}

/// Takes the subgraphs of a file in.
fn take_in(
    mut all: TextMap<SubgraphConfig>,
    more: TextMap<SubgraphConfig>,
    rel: &str,
) -> (r: Result<TextMap<SubgraphConfig>, Error>)
    ensures
        match merged(subgraph_views(all@), subgraph_views(more@), rel@) {
            Ok(m) => r matches Ok(t) && subgraph_views(t@) == m,
            Err(e) => r matches Err(x) && x@ == e,
        },
{
    let ghost a = subgraph_views(all@);
    let ghost b = subgraph_views(more@);
    let count: usize = more.len();
    match all.first_common(&more) {
        Some(i) => {
            let name = more.key_at(i);
            proof {
                assert(a.contains_key(name@));
                assert(b.contains_key(name@));
                assert forall|k: Seq<char>| #[trigger]
                    a.contains_key(k) && b.contains_key(k) && k != name@ implies text_less(
                    name@,
                    k,
                ) by {
                    let j = more.keys().index_of(k);
                    assert(more@.contains_key(k));
                    assert(more.keys()[j] == k);
                    assert(all@.contains_key(more.keys()[j]));
                }
                lemma_first_is_unique(a, b, name@, rel@);
            }
            Err(
                Error::InvalidArg(
                    cat5(
                        "subgraph `",
                        name.as_str(),
                        "` defined more than once (via include `",
                        rel,
                        "`)",
                    ),
                ),
            )
        },
        None => {
            proof {
                assert forall|k: Seq<char>| a.dom().contains(k) implies !b.dom().contains(k) by {
                    if b.dom().contains(k) {
                        let j = more.keys().index_of(k);
                        assert(more@.contains_key(k));
                        assert(more.keys()[j] == k);
                        assert(all@.contains_key(k));
                    }
                }
                assert(a.dom().disjoint(b.dom()));
            }
            all.absorb(more);
            assert(subgraph_views(all@) =~= a.union_prefer_right(b));
            Ok(all)
        },
    }
}

fn line_up(list: &Vec<String>) -> (r: VecDeque<String>)
    ensures
        texts(r@) == texts(list@),
{
    let mut r: VecDeque<String> = VecDeque::new();
    for i in 0..list.len()
        invariant
            texts(r@) == texts(list@).take(i as int),
    {
        let ghost before = texts(r@);
        let copy = list[i].clone();
        r.push_back(copy);
        assert(texts(r@) =~= before.push(copy@));
        assert(texts(list@).take(i + 1) =~= before.push(texts(list@)[i as int]));
    }
    assert(texts(list@).take(list.len() as int) =~= texts(list@));
    r
}

impl IncludeWalk {
    /// The way from a configuration whose own file is `main`, if it could be
    /// found, in the directory `base`.
    pub fn new(
        main: Option<String>,
        base: &str,
        includes: &Vec<String>,
        subgraphs: TextMap<SubgraphConfig>,
    ) -> (r: IncludeWalk)
        ensures
            r@ == (WalkView {
                subgraphs: subgraph_views(subgraphs@),
                visited: match main {
                    Some(path) => set![path@],
                    None => Set::empty(),
                },
                frames: seq![
                    FrameView {
                        rel: Seq::empty(),
                        base: base@,
                        rest: texts(includes@),
                        subgraphs: Map::empty(),
                    },
                ],
            }),
    {
        let mut visited: TextMap<bool> = TextMap::new();
        match main {
            Some(path) => {
                visited.insert(path, true);
            },
            None => {},
        }
        let mut frames: Vec<Frame> = Vec::new();
        frames.push(
            Frame {
                rel: String::new(),
                base: base.to_owned(),
                rest: line_up(includes),
                subgraphs: TextMap::new(),
            },
        );
        let r = IncludeWalk { subgraphs, visited, frames };
        proof {
            assert(subgraph_views(r.frames@[0].subgraphs@) =~= Map::empty());
            assert(r@.frames[0].rel =~= Seq::empty());
        }
        r
    }

    /// The file that is wanted next; none if all are through.
    pub fn advance(self) -> (r: Result<(IncludeWalk, Option<Wanted>), Error>)
        ensures
            match self@.advanced() {
                Err(e) => r matches Err(x) && x@ == e,
                Ok((w, None)) => r matches Ok((walk, None)) && walk@ == w,
                Ok((w, Some((base, rel)))) => r matches Ok((walk, Some(wanted))) && walk@ == w
                    && wanted.base@ == base && wanted.rel@ == rel,
            },
    {
        let ghost start = self@;
        let mut subgraphs = self.subgraphs;
        let visited = self.visited;
        let mut frames = self.frames;
        loop
            invariant
                start == self@,
                start.advanced() == (IncludeWalk { subgraphs, visited, frames })@.advanced(),
            decreases frames@.len(),
        {
            let ghost now = (IncludeWalk { subgraphs, visited, frames })@;
            match frames.pop() {
                None => {
                    return Ok((IncludeWalk { subgraphs, visited, frames }, None));
                },
                Some(top) => {
                    let mut top = top;
                    assert(now.frames.last() == top@);
                    let ghost before = top@;
                    match top.rest.pop_front() {
                        Some(rel) => {
                            assert(top@.rest =~= before.rest.drop_first());
                            assert(rel@ == before.rest[0]);
                            let base = top.base.clone();
                            frames.push(top);
                            let walk = IncludeWalk { subgraphs, visited, frames };
                            assert(walk@.frames =~= now.frames.drop_last().push(top@));
                            return Ok((walk, Some(Wanted { base, rel })));
                        },
                        None => {
                            assert(before.rest.len() == 0);
                            assert(top@.subgraphs == subgraph_views(top.subgraphs@));
                            match take_in(subgraphs, top.subgraphs, top.rel.as_str()) {
                                Err(e) => {
                                    return Err(e);
                                },
                                Ok(all) => {
                                    subgraphs = all;
                                    let ghost next = (IncludeWalk { subgraphs, visited, frames })@;
                                    assert(next.frames =~= now.frames.drop_last());
                                },
                            }
                        },
                    }
                },
            }
        }
    }

    /// Notes a file that was found, and says whether it is new. One that was
    /// met before is not read again.
    pub fn found(&mut self, path: String) -> (new: bool)
        ensures
            new == !old(self)@.visited.contains(path@),
            final(self)@ == (WalkView {
                visited: old(self)@.visited.insert(path@),
                ..old(self)@
            }),
    {
        let new = self.visited.insert(path, true).is_none();
        assert(self@.visited =~= old(self)@.visited.insert(path@));
        new
    }

    /// Enters a file that was read: its directory, what it brings in and its
    /// own subgraphs.
    pub fn entered(
        &mut self,
        rel: &str,
        base: &str,
        includes: &Vec<String>,
        subgraphs: TextMap<SubgraphConfig>,
    )
        ensures
            final(self)@ == (WalkView {
                frames: old(self)@.frames.push(
                    FrameView {
                        rel: rel@,
                        base: base@,
                        rest: texts(includes@),
                        subgraphs: subgraph_views(subgraphs@),
                    },
                ),
                ..old(self)@
            }),
    {
        self.frames.push(
            Frame {
                rel: rel.to_owned(),
                base: base.to_owned(),
                rest: line_up(includes),
                subgraphs,
            },
        );
        assert(self@.frames =~= old(self)@.frames.push(self.frames@.last()@));
    }

    /// Everything that was brought in.
    pub fn finish(self) -> (r: TextMap<SubgraphConfig>)
        ensures
            subgraph_views(r@) == self@.subgraphs,
    {
        self.subgraphs
    }
}

// -------------------------------------------------------------------- the laws

/// Bringing files in adds subgraphs and neither loses nor changes one.
pub proof fn includes_only_add(w: WalkView, name: Seq<char>)
    requires
        w.advanced() is Ok,
        w.subgraphs.contains_key(name),
    ensures
        w.advanced()->Ok_0.0.subgraphs.contains_key(name),
        w.advanced()->Ok_0.0.subgraphs[name] == w.subgraphs[name],
        w.advanced()->Ok_0.0.visited == w.visited,
    decreases w.frames.len(),
{
    if w.frames.len() > 0 && w.frames.last().rest.len() == 0 {
        let top = w.frames.last();
        let m = merged(w.subgraphs, top.subgraphs, top.rel)->Ok_0;
        assert(w.subgraphs.dom().contains(name));
        assert(!top.subgraphs.dom().contains(name));
        includes_only_add(
            WalkView { subgraphs: m, frames: w.frames.drop_last(), ..w },
            name,
        );
    }
}

/// A name that is defined twice is refused, and the error names the file that
/// defined it the second time.
pub proof fn names_are_defined_once(
    a: Map<Seq<char>, SubgraphView>,
    b: Map<Seq<char>, SubgraphView>,
    rel: Seq<char>,
    name: Seq<char>,
)
    requires
        a.contains_key(name),
        b.contains_key(name),
    ensures
        merged(a, b, rel) is Err,
{
    assert(a.dom().contains(name) && b.dom().contains(name));
}

} // verus!
