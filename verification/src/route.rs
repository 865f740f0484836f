use crate::text::segments;
use vstd::prelude::*;

verus! {

/// One segment of a route pattern: a literal, which matches its own text and
/// nothing else, or a parameter, which matches any segment and binds it under
/// the parameter's name.
pub ghost enum Segment {
    Literal(Seq<char>),
    Parameter(Seq<char>),
}

/// What a child of a node stands under: the text of a literal segment, or the
/// one slot that a node has for a parameter. The name of a parameter is no
/// part of it: two patterns that differ only in the names of their parameters
/// lead to the same node.
pub ghost enum Edge {
    Literal(Seq<char>),
    Parameter,
}

/// A segment of a pattern is a parameter where it is wrapped in braces:
/// `{name}`. Any other segment is literal, whatever braces it holds.
pub open spec fn is_parameter(segment: Seq<char>) -> bool {
    segment.len() >= 2 && segment.first() == '{' && segment.last() == '}'
}

/// A segment of a pattern, read as a literal or as a parameter with the name
/// that stands between its braces.
pub open spec fn segment_of(segment: Seq<char>) -> Segment {
    if is_parameter(segment) {
        Segment::Parameter(segment.subrange(1, segment.len() - 1))
    } else {
        Segment::Literal(segment)
    }
}

/// The route pattern that a pattern string writes.
pub open spec fn pattern_of(pattern: Seq<char>) -> Seq<Segment> {
    segments(pattern).map_values(|s: Seq<char>| segment_of(s))
}

/// The edge that a segment of a pattern goes along.
pub open spec fn edge_of(segment: Segment) -> Edge {
    match segment {
        Segment::Literal(text) => Edge::Literal(text),
        Segment::Parameter(_) => Edge::Parameter,
    }
}

/// The place of the node that a pattern leads to: the edges from the root
/// down to it.
pub open spec fn place_of(pattern: Seq<Segment>) -> Seq<Edge> {
    pattern.map_values(|s: Segment| edge_of(s))
}

/// Whether `place` lies on the way from the root to the node of `pattern`,
/// both ends included.
pub open spec fn on_path(pattern: Seq<Segment>, place: Seq<Edge>) -> bool {
    place.len() <= pattern.len() && place == place_of(pattern.take(place.len() as int))
}

/// What a node of the trie holds: a handler for each method that is
/// registered at this node, and the name of the node's parameter child where
/// it has one.
pub ghost struct NodeView<H> {
    pub handlers: Map<Seq<char>, H>,
    pub parameter: Option<Seq<char>>,
}

impl<H> NodeView<H> {
    /// A node without handlers and without a parameter child.
    pub open spec fn vacant() -> Self {
        NodeView { handlers: Map::empty(), parameter: None }
    }
}

/// How far a walk down the trie has come: the place of the node it stands
/// at, and the parameters bound on the way.
pub ghost struct Walk {
    pub place: Seq<Edge>,
    pub params: Map<Seq<char>, Seq<char>>,
}

/// What comes of resolving a path and a method.
pub ghost enum Resolution<H> {
    /// The path leads to a node that has a handler for the method. `params`
    /// maps each parameter on the way to the segment that it matched.
    Found { handler: H, params: Map<Seq<char>, Seq<char>> },
    /// The path leads to a node that has handlers, but none for the method.
    WrongMethod,
    /// The path leads to no node, or to one without handlers.
    NoRoute,
}

/// The trie as a map from the place of each node to what the node holds.
pub ghost struct TrieView<H> {
    pub nodes: Map<Seq<Edge>, NodeView<H>>,
}

impl<H> TrieView<H> {
    /// The trie without routes: a vacant root.
    pub open spec fn empty() -> Self {
        TrieView {
            nodes: Map::<Seq<Edge>, NodeView<H>>::empty().insert(Seq::empty(), NodeView::vacant()),
        }
    }

    /// The node at `place`; a vacant one where the trie has none there.
    pub open spec fn node(self, place: Seq<Edge>) -> NodeView<H> {
        if self.nodes.contains_key(place) {
            self.nodes[place]
        } else {
            NodeView::vacant()
        }
    }

    /// The trie has a root, each node but the root hangs under a node of the
    /// trie, and a node names a parameter exactly where it has a parameter
    /// child.
    pub open spec fn wf(self) -> bool {
        &&& self.nodes.contains_key(Seq::empty())
        &&& forall|place: Seq<Edge>| #[trigger]
            self.nodes.contains_key(place) && place.len() > 0 ==> self.nodes.contains_key(
                place.drop_last(),
            )
        &&& forall|place: Seq<Edge>| #[trigger]
            self.nodes.contains_key(place) ==> (self.nodes[place].parameter is Some
                <==> self.nodes.contains_key(place.push(Edge::Parameter)))
    }

    /// The trie with all nodes on the way of `pattern`: nodes that were
    /// missing are vacant, and each node before a parameter of the pattern
    /// names its parameter child as the pattern does. Nothing else changes.
    pub open spec fn with_path(self, pattern: Seq<Segment>) -> Self {
        TrieView {
            nodes: Map::new(
                |place: Seq<Edge>| self.nodes.contains_key(place) || on_path(pattern, place),
                |place: Seq<Edge>|
                    NodeView {
                        handlers: self.node(place).handlers,
                        parameter: if place.len() < pattern.len() && on_path(pattern, place)
                            && pattern[place.len() as int] is Parameter {
                            Some(pattern[place.len() as int]->Parameter_0)
                        } else {
                            self.node(place).parameter
                        },
                    },
            ),
        }
    }

    /// The trie after registering `handler` for `method` under `pattern`: the
    /// nodes on the way are there, and the node of the pattern holds
    /// `handler` for `method`, in place of any handler it held for it.
    pub open spec fn with_route(self, pattern: Seq<Segment>, method: Seq<char>, handler: H) -> Self {
        let grown = self.with_path(pattern);
        let end = place_of(pattern);
        TrieView {
            nodes: grown.nodes.insert(
                end,
                NodeView {
                    handlers: grown.node(end).handlers.insert(method, handler),
                    parameter: grown.node(end).parameter,
                },
            ),
        }
    }

    /// The trie with the child of the node at `place` that `segment` goes
    /// to: a missing child is vacant, and for a parameter the node at `place`
    /// names its parameter child as the segment does.
    pub open spec fn grow(self, place: Seq<Edge>, segment: Segment) -> Self {
        let below = place.push(edge_of(segment));
        let named = match segment {
            Segment::Literal(_) => self.nodes,
            Segment::Parameter(name) => self.nodes.insert(
                place,
                NodeView { handlers: self.node(place).handlers, parameter: Some(name) },
            ),
        };
        TrieView { nodes: named.insert(below, TrieView { nodes: named }.node(below)) }
    }

    /// One step down from the node at `place`, for one segment of a path. A
    /// literal child under the segment's text comes first. Without one, the
    /// parameter child is taken and its name bound to the segment. Without
    /// either there is no way on.
    pub open spec fn step(self, from: Walk, segment: Seq<char>) -> Option<Walk> {
        if self.nodes.contains_key(from.place.push(Edge::Literal(segment))) {
            Some(Walk { place: from.place.push(Edge::Literal(segment)), params: from.params })
        } else if self.node(from.place).parameter is Some {
            Some(
                Walk {
                    place: from.place.push(Edge::Parameter),
                    params: from.params.insert(self.node(from.place).parameter->0, segment),
                },
            )
        } else {
            None
        }
    }

    /// The walk from the root along the segments of a path: the place it
    /// ends at and the parameters bound on the way, or nothing where a step
    /// has no way on.
    pub open spec fn descend(self, path: Seq<Seq<char>>) -> Option<Walk>
        decreases path.len(),
    {
        if path.len() == 0 {
            Some(Walk { place: Seq::empty(), params: Map::empty() })
        } else {
            match self.descend(path.drop_last()) {
                Some(walk) => self.step(walk, path.last()),
                None => None,
            }
        }
    }

    /// Resolves the segments of a path and a method.
    pub open spec fn resolve(self, path: Seq<Seq<char>>, method: Seq<char>) -> Resolution<H> {
        match self.descend(path) {
            Some(walk) => {
                let handlers = self.node(walk.place).handlers;
                if handlers.contains_key(method) {
                    Resolution::Found { handler: handlers[method], params: walk.params }
                } else if handlers.is_empty() {
                    Resolution::NoRoute
                } else {
                    Resolution::WrongMethod
                }
            },
            None => Resolution::NoRoute,
        }
    }
}

/// Whether `path` can go to the node at `place`: one segment for each edge,
/// and under each literal edge the segment that is its text.
pub open spec fn goes_to(path: Seq<Seq<char>>, place: Seq<Edge>) -> bool {
    &&& path.len() == place.len()
    &&& forall|i: int|
        0 <= i < place.len() && (#[trigger] place[i]) is Literal ==> place[i]->Literal_0 == path[i]
}

/// The parameters that `path` binds on the way of `pattern`: each name with
/// the segment at its place. Where a name stands twice in the pattern, the
/// later segment is bound.
pub open spec fn bindings(pattern: Seq<Segment>, path: Seq<Seq<char>>) -> Map<
    Seq<char>,
    Seq<char>,
>
    decreases pattern.len(),
{
    if pattern.len() == 0 {
        Map::empty()
    } else {
        let before = bindings(pattern.drop_last(), path.drop_last());
        match pattern.last() {
            Segment::Parameter(name) => before.insert(name, path.last()),
            Segment::Literal(_) => before,
        }
    }
}

impl<H> TrieView<H> {
    /// Whether the trie holds `handler` for `method` under `pattern`: the
    /// node of the pattern holds it, and each node before a parameter of the
    /// pattern names its parameter child as the pattern does.
    pub open spec fn has_route(self, pattern: Seq<Segment>, method: Seq<char>, handler: H) -> bool {
        &&& self.nodes.contains_key(place_of(pattern))
        &&& self.nodes[place_of(pattern)].handlers.contains_key(method)
        &&& self.nodes[place_of(pattern)].handlers[method] == handler
        &&& forall|i: int|
            0 <= i < pattern.len() && (#[trigger] pattern[i]) is Parameter ==> self.node(
                place_of(pattern.take(i)),
            ).parameter == Some(pattern[i]->Parameter_0)
    }

    /// Whether `path` matches `pattern` and is led its way: each literal of
    /// the pattern meets its own text, and each parameter meets a segment
    /// under which the node before it has no literal child.
    pub open spec fn leads(self, pattern: Seq<Segment>, path: Seq<Seq<char>>) -> bool {
        &&& path.len() == pattern.len()
        &&& forall|i: int|
            0 <= i < pattern.len() ==> match #[trigger] pattern[i] {
                Segment::Literal(text) => path[i] == text,
                Segment::Parameter(_) => !self.nodes.contains_key(
                    place_of(pattern.take(i)).push(Edge::Literal(path[i])),
                ),
            }
    }
}

/// A walk that has no way on after some of the segments has none after all
/// of them.
pub proof fn lemma_descend_none<H>(trie: TrieView<H>, path: Seq<Seq<char>>, n: int)
    requires
        0 <= n <= path.len(),
        trie.descend(path.take(n)) is None,
    ensures
        trie.descend(path) is None,
    decreases path.len() - n,
{
    if n < path.len() {
        assert(path.take(n + 1).drop_last() == path.take(n));
        lemma_descend_none(trie, path, n + 1);
    } else {
        assert(path.take(n) == path);
    }
}

/// The way of the empty pattern is the root alone.
pub proof fn lemma_with_path_none<H>(trie: TrieView<H>)
    requires
        trie.nodes.contains_key(Seq::empty()),
    ensures
        trie.with_path(Seq::empty()) == trie,
{
    let empty = Seq::<Segment>::empty();
    assert(empty.take(0) == empty);
    assert forall|place: Seq<Edge>| on_path(empty, place) implies place == Seq::<Edge>::empty() by {
        assert(place.len() == 0);
    }
    assert(trie.with_path(empty).nodes =~= trie.nodes);
}

/// The way of the first `n + 1` segments of a pattern is the way of the first
/// `n`, grown by the next segment.
pub proof fn lemma_with_path_grow<H>(trie: TrieView<H>, pattern: Seq<Segment>, n: int)
    requires
        0 <= n < pattern.len(),
    ensures
        trie.with_path(pattern.take(n + 1)) == trie.with_path(pattern.take(n)).grow(
            place_of(pattern.take(n)),
            pattern[n],
        ),
{
    let short = pattern.take(n);
    let long = pattern.take(n + 1);
    let at = place_of(short);
    let below = at.push(edge_of(pattern[n]));
    assert(place_of(long) == below);
    assert forall|place: Seq<Edge>| on_path(long, place) <==> on_path(short, place) || place
        == below by {
        if place.len() <= n {
            assert(long.take(place.len() as int) == short.take(place.len() as int));
        } else if place.len() == n + 1 {
            assert(long.take(n + 1) == long);
        }
    }
    assert(short.take(n) == short);
    assert(on_path(short, at));
    assert(trie.with_path(long).nodes =~= trie.with_path(short).grow(at, pattern[n]).nodes);
}

/// The trie without routes is well-formed.
pub proof fn lemma_empty_wf<H>()
    ensures
        TrieView::<H>::empty().wf(),
{
    let trie = TrieView::<H>::empty();
    let root = Seq::<Edge>::empty();
    assert forall|place: Seq<Edge>| #[trigger] trie.nodes.contains_key(place) implies place
        == root by {}
    assert forall|place: Seq<Edge>| #[trigger] trie.nodes.contains_key(place) implies (
    trie.nodes[place].parameter is Some <==> trie.nodes.contains_key(place.push(Edge::Parameter))) by {
        assert(place.push(Edge::Parameter).len() == 1);
    }
}

/// The place of a pattern has an edge for each segment, and the place of a
/// shorter pattern is that of the longer one, cut.
pub proof fn lemma_place_of_take(pattern: Seq<Segment>, n: int)
    requires
        0 <= n <= pattern.len(),
    ensures
        place_of(pattern).len() == pattern.len(),
        place_of(pattern.take(n)) == place_of(pattern).take(n),
        n < pattern.len() ==> place_of(pattern.take(n + 1)) == place_of(pattern.take(n)).push(
            edge_of(pattern[n]),
        ),
{
    assert(place_of(pattern.take(n)) =~= place_of(pattern).take(n));
    if n < pattern.len() {
        assert(place_of(pattern.take(n + 1)) =~= place_of(pattern.take(n)).push(
            edge_of(pattern[n]),
        ));
    }
}

/// Growing a well-formed trie by a segment below one of its nodes leaves it
/// well-formed.
pub proof fn lemma_grow_wf<H>(trie: TrieView<H>, place: Seq<Edge>, segment: Segment)
    requires
        trie.wf(),
        trie.nodes.contains_key(place),
    ensures
        trie.grow(place, segment).wf(),
        trie.grow(place, segment).nodes.contains_key(place.push(edge_of(segment))),
{
    let grown = trie.grow(place, segment);
    let below = place.push(edge_of(segment));
    assert(below.drop_last() == place);
    assert(below.last() == edge_of(segment));
    assert forall|at: Seq<Edge>| #[trigger] grown.nodes.contains_key(at) && at.len()
        > 0 implies grown.nodes.contains_key(at.drop_last()) by {
        if at != below && at != place {
            assert(trie.nodes.contains_key(at));
        }
    }
    assert forall|at: Seq<Edge>| #[trigger] grown.nodes.contains_key(at) implies (
    grown.nodes[at].parameter is Some <==> grown.nodes.contains_key(at.push(Edge::Parameter))) by {
        let next = at.push(Edge::Parameter);
        assert(next.drop_last() == at);
        assert(next.last() == Edge::Parameter);
        if at == below {
            if trie.nodes.contains_key(below) {
                assert(trie.nodes[below].parameter is Some <==> trie.nodes.contains_key(next));
            } else {
                if trie.nodes.contains_key(next) {
                    assert(trie.nodes.contains_key(next.drop_last()));
                }
            }
            assert(next != below);
        } else if at == place {
            assert(trie.nodes[place].parameter is Some <==> trie.nodes.contains_key(next));
        } else {
            assert(trie.nodes.contains_key(at));
            assert(trie.nodes[at].parameter is Some <==> trie.nodes.contains_key(next));
            if next == below {
                assert(at == place);
            }
        }
    }
}

/// Making the way of a pattern leaves a well-formed trie well-formed, and
/// the node of the pattern is there.
pub proof fn lemma_with_path_wf<H>(trie: TrieView<H>, pattern: Seq<Segment>)
    requires
        trie.wf(),
    ensures
        trie.with_path(pattern).wf(),
        trie.with_path(pattern).nodes.contains_key(place_of(pattern)),
    decreases pattern.len(),
{
    if pattern.len() == 0 {
        assert(pattern =~= Seq::<Segment>::empty());
        lemma_with_path_none(trie);
        assert(place_of(pattern) =~= Seq::<Edge>::empty());
    } else {
        let n = pattern.len() - 1;
        let short = pattern.take(n);
        lemma_with_path_wf(trie, short);
        lemma_with_path_grow(trie, pattern, n);
        assert(pattern.take(n + 1) == pattern);
        lemma_grow_wf(trie.with_path(short), place_of(short), pattern[n]);
        lemma_place_of_take(pattern, n);
    }
}

/// Registering a route leaves a well-formed trie well-formed.
pub proof fn lemma_with_route_wf<H>(
    trie: TrieView<H>,
    pattern: Seq<Segment>,
    method: Seq<char>,
    handler: H,
)
    requires
        trie.wf(),
    ensures
        trie.with_route(pattern, method, handler).wf(),
{
    lemma_with_path_wf(trie, pattern);
    let grown = trie.with_path(pattern);
    let after = trie.with_route(pattern, method, handler);
    assert(after.nodes.dom() =~= grown.nodes.dom());
    assert forall|place: Seq<Edge>| #[trigger] after.nodes.contains_key(place) && place.len()
        > 0 implies after.nodes.contains_key(place.drop_last()) by {
        assert(grown.nodes.contains_key(place));
    }
    assert forall|place: Seq<Edge>| #[trigger] after.nodes.contains_key(place) implies (
    after.nodes[place].parameter is Some <==> after.nodes.contains_key(
        place.push(Edge::Parameter),
    )) by {
        assert(grown.nodes.contains_key(place));
    }
}

/// A well-formed trie that has a node has every node on the way to it.
pub proof fn lemma_way_is_there<H>(trie: TrieView<H>, place: Seq<Edge>, n: int)
    requires
        trie.wf(),
        trie.nodes.contains_key(place),
        0 <= n <= place.len(),
    ensures
        trie.nodes.contains_key(place.take(n)),
    decreases place.len() - n,
{
    if n == place.len() {
        assert(place.take(n) == place);
    } else {
        lemma_way_is_there(trie, place, n + 1);
        assert(place.take(n + 1).drop_last() == place.take(n));
    }
}

/// A walk ends at a node of the trie to which the path can go: the walk
/// follows no edge but a literal under the segment's own text, or a
/// parameter.
pub proof fn lemma_descend_sound<H>(trie: TrieView<H>, path: Seq<Seq<char>>)
    requires
        trie.wf(),
        trie.descend(path) is Some,
    ensures
        trie.nodes.contains_key(trie.descend(path)->0.place),
        goes_to(path, trie.descend(path)->0.place),
    decreases path.len(),
{
    if path.len() > 0 {
        let before = path.drop_last();
        lemma_descend_sound(trie, before);
        let place = trie.descend(before)->0.place;
        let end = trie.descend(path)->0.place;
        assert forall|i: int| 0 <= i < end.len() && (#[trigger] end[i]) is Literal implies end[i]->Literal_0
            == path[i] by {
            if i < place.len() {
                assert(end[i] == place[i]);
                assert(before[i] == path[i]);
            }
        }
    }
}

/// A literal child comes before the parameter child: where the walk stands
/// at a node that has a literal child under the next segment, it goes to that
/// child and binds nothing, whether or not the node has a parameter child.
pub proof fn lemma_literal_first<H>(trie: TrieView<H>, path: Seq<Seq<char>>, segment: Seq<char>)
    requires
        trie.descend(path) is Some,
        trie.nodes.contains_key(trie.descend(path)->0.place.push(Edge::Literal(segment))),
    ensures
        trie.descend(path.push(segment)) == Some(
            Walk {
                place: trie.descend(path)->0.place.push(Edge::Literal(segment)),
                params: trie.descend(path)->0.params,
            },
        ),
{
    assert(path.push(segment).drop_last() == path);
}

/// A path to which no node of the trie answers resolves to no route,
/// whatever the method.
pub proof fn lemma_unknown_path<H>(trie: TrieView<H>, path: Seq<Seq<char>>, method: Seq<char>)
    requires
        trie.wf(),
        forall|place: Seq<Edge>| #[trigger] trie.nodes.contains_key(place) ==> !goes_to(path, place),
    ensures
        trie.resolve(path, method) == Resolution::<H>::NoRoute,
{
    if trie.descend(path) is Some {
        lemma_descend_sound(trie, path);
    }
}

/// The trie without routes resolves every path to no route.
pub proof fn lemma_empty_resolves_nothing<H>(path: Seq<Seq<char>>, method: Seq<char>)
    ensures
        TrieView::<H>::empty().resolve(path, method) == Resolution::<H>::NoRoute,
{
    let trie = TrieView::<H>::empty();
    lemma_empty_wf::<H>();
    if trie.descend(path) is Some {
        lemma_descend_sound(trie, path);
        let place = trie.descend(path)->0.place;
        assert(place == Seq::<Edge>::empty());
        assert(trie.node(place).handlers.dom() =~= Set::<Seq<char>>::empty());
    }
}

/// The walk along a path that is led the way of a pattern stands, after `n`
/// segments, at the place of the first `n` segments of the pattern, with
/// their parameters bound.
pub proof fn lemma_descend_along<H>(
    trie: TrieView<H>,
    pattern: Seq<Segment>,
    method: Seq<char>,
    handler: H,
    path: Seq<Seq<char>>,
    n: int,
)
    requires
        trie.wf(),
        trie.has_route(pattern, method, handler),
        trie.leads(pattern, path),
        0 <= n <= pattern.len(),
    ensures
        trie.descend(path.take(n)) == Some(
            Walk {
                place: place_of(pattern.take(n)),
                params: bindings(pattern.take(n), path.take(n)),
            },
        ),
    decreases n,
{
    if n == 0 {
        assert(path.take(0) =~= Seq::<Seq<char>>::empty());
        assert(pattern.take(0) =~= Seq::<Segment>::empty());
        assert(place_of(pattern.take(0)) =~= Seq::<Edge>::empty());
    } else {
        let m = n - 1;
        lemma_descend_along(trie, pattern, method, handler, path, m);
        let place = place_of(pattern.take(m));
        let params = bindings(pattern.take(m), path.take(m));
        assert(path.take(n).drop_last() == path.take(m));
        assert(path.take(n).last() == path[m]);
        assert(pattern.take(n).drop_last() == pattern.take(m));
        assert(pattern.take(n).last() == pattern[m]);
        lemma_place_of_take(pattern, m);
        lemma_place_of_take(pattern, n);
        lemma_way_is_there(trie, place_of(pattern), n);
        lemma_way_is_there(trie, place_of(pattern), m);
        assert(trie.descend(path.take(n)) == trie.step(Walk { place, params }, path[m]));
        match pattern[m] {
            Segment::Literal(text) => {
                assert(place.push(Edge::Literal(path[m])) == place_of(pattern.take(n)));
            },
            Segment::Parameter(name) => {
                assert(trie.node(place).parameter == Some(name));
            },
        }
    }
}

/// A registered route resolves: where the trie holds `handler` for `method`
/// under `pattern`, a path that matches the pattern and is led its way
/// resolves with that method to `handler`, and the parameters of the pattern
/// are bound to the segments at their places.
pub proof fn lemma_route_resolves<H>(
    trie: TrieView<H>,
    pattern: Seq<Segment>,
    method: Seq<char>,
    handler: H,
    path: Seq<Seq<char>>,
)
    requires
        trie.wf(),
        trie.has_route(pattern, method, handler),
        trie.leads(pattern, path),
    ensures
        trie.resolve(path, method) == (Resolution::Found {
            handler,
            params: bindings(pattern, path),
        }),
{
    lemma_descend_along(trie, pattern, method, handler, path, pattern.len() as int);
    assert(path.take(pattern.len() as int) == path);
    assert(pattern.take(pattern.len() as int) == pattern);
}

/// A path binds under the name of a parameter the segment at the
/// parameter's place, unless the pattern has the name again further on.
pub proof fn lemma_bindings_value(pattern: Seq<Segment>, path: Seq<Seq<char>>, i: int)
    requires
        path.len() == pattern.len(),
        0 <= i < pattern.len(),
        pattern[i] is Parameter,
        forall|j: int| i < j < pattern.len() ==> #[trigger] pattern[j] != pattern[i],
    ensures
        bindings(pattern, path).contains_key(pattern[i]->Parameter_0),
        bindings(pattern, path)[pattern[i]->Parameter_0] == path[i],
    decreases pattern.len(),
{
    let n = pattern.len() - 1;
    if i < n {
        let short = pattern.drop_last();
        assert(short[i] == pattern[i]);
        assert(path.drop_last()[i] == path[i]);
        assert forall|j: int| i < j < short.len() implies #[trigger] short[j] != short[i] by {
            assert(short[j] == pattern[j]);
        }
        lemma_bindings_value(short, path.drop_last(), i);
        assert(pattern[n] != pattern[i]);
    }
}

/// A path binds no name but those of the parameters of the pattern.
pub proof fn lemma_bindings_names(pattern: Seq<Segment>, path: Seq<Seq<char>>, name: Seq<char>)
    requires
        bindings(pattern, path).contains_key(name),
    ensures
        exists|i: int| 0 <= i < pattern.len() && #[trigger] pattern[i] == Segment::Parameter(name),
    decreases pattern.len(),
{
    if pattern.len() > 0 {
        let n = pattern.len() - 1;
        let short = pattern.drop_last();
        if pattern[n] == Segment::Parameter(name) {
        } else {
            lemma_bindings_names(short, path.drop_last(), name);
            let i = choose|i: int| 0 <= i < short.len() && #[trigger] short[i] == Segment::Parameter(name);
            assert(pattern[i] == Segment::Parameter(name));
        }
    }
}

/// After a route is registered the trie holds it.
pub proof fn lemma_with_route_has_route<H>(
    trie: TrieView<H>,
    pattern: Seq<Segment>,
    method: Seq<char>,
    handler: H,
)
    requires
        trie.wf(),
    ensures
        trie.with_route(pattern, method, handler).has_route(pattern, method, handler),
{
    let after = trie.with_route(pattern, method, handler);
    lemma_with_path_wf(trie, pattern);
    assert forall|i: int| 0 <= i < pattern.len() && (#[trigger] pattern[i]) is Parameter implies after.node(
        place_of(pattern.take(i)),
    ).parameter == Some(pattern[i]->Parameter_0) by {
        let place = place_of(pattern.take(i));
        assert(pattern.take(place.len() as int) == pattern.take(i));
        assert(on_path(pattern, place));
    }
}

/// Registering a route keeps the routes that the trie holds, but for two: a
/// route under the same node and method, whose handler is replaced, and a
/// route that has a parameter where the new pattern has one under another
/// name, which is renamed.
pub proof fn lemma_with_route_keeps_route<H>(
    trie: TrieView<H>,
    pattern: Seq<Segment>,
    method: Seq<char>,
    handler: H,
    new_pattern: Seq<Segment>,
    new_method: Seq<char>,
    new_handler: H,
)
    requires
        trie.wf(),
        trie.has_route(pattern, method, handler),
        !(place_of(new_pattern) == place_of(pattern) && new_method == method),
        forall|i: int|
            0 <= i < pattern.len() && i < new_pattern.len() && (#[trigger] pattern[i]) is Parameter
                && new_pattern[i] is Parameter && place_of(pattern.take(i)) == place_of(
                new_pattern.take(i),
            ) ==> pattern[i] == new_pattern[i],
    ensures
        trie.with_route(new_pattern, new_method, new_handler).has_route(pattern, method, handler),
{
    let after = trie.with_route(new_pattern, new_method, new_handler);
    lemma_with_path_wf(trie, new_pattern);
    assert forall|i: int| 0 <= i < pattern.len() && (#[trigger] pattern[i]) is Parameter implies after.node(
        place_of(pattern.take(i)),
    ).parameter == Some(pattern[i]->Parameter_0) by {
        let place = place_of(pattern.take(i));
        lemma_place_of_take(pattern, i);
        lemma_way_is_there(trie, place_of(pattern), i);
        assert(trie.nodes.contains_key(place));
        if place.len() < new_pattern.len() && on_path(new_pattern, place) {
            assert(place_of(new_pattern.take(i)) == place);
        }
    }
}

} // verus!
