use crate::route::{
    lemma_descend_none, lemma_with_path_grow, lemma_with_path_none, lemma_with_route_has_route,
    pattern_of, place_of, segment_of, Edge, NodeView, Resolution, Segment, TrieView, Walk,
};
use crate::text::{chars_of, segments, split_path, string_of, text_map};
use vstd::hash_map::StringHashMap;
use vstd::prelude::*;
use vstd::slice::slice_subrange;

verus! {

/// What comes of resolving a request: the handler with the parameters bound
/// on the way, or why there is none.
pub enum RouteMatch<'a, H> {
    /// The handler for the path and the method, and the parameters that the
    /// path bound.
    Found(&'a H, StringHashMap<String>),
    /// The path leads to handlers, but to none for the method.
    WrongMethod,
    /// The path leads to no handler at all.
    NotFound,
}

impl<'a, H> View for RouteMatch<'a, H> {
    type V = Resolution<H>;

    open spec fn view(&self) -> Resolution<H> {
        match self {
            RouteMatch::Found(handler, params) => Resolution::Found {
                handler: **handler,
                params: text_map(params@),
            },
            RouteMatch::WrongMethod => Resolution::WrongMethod,
            RouteMatch::NotFound => Resolution::NoRoute,
        }
    }
}

/// A node of the trie. Its children are held by their index in the trie's
/// list of nodes.
#[verifier::reject_recursive_types(H)]
struct Node<H> {
    children: StringHashMap<usize>,
    parameter: Option<ParameterChild>,
    handlers: StringHashMap<H>,
}

/// The parameter child of a node: the name that it binds, and its index.
struct ParameterChild {
    name: String,
    node: usize,
}

impl<H> Node<H> {
    /// A node without children and without handlers.
    fn new() -> (node: Self)
        ensures
            node@ == NodeView::<H>::vacant(),
            node.children@ == Map::<Seq<char>, usize>::empty(),
            node.parameter is None,
    {
        Node { children: StringHashMap::new(), parameter: None, handlers: StringHashMap::new() }
    }
}

impl<H> View for Node<H> {
    type V = NodeView<H>;

    closed spec fn view(&self) -> NodeView<H> {
        NodeView {
            handlers: self.handlers@,
            parameter: match self.parameter {
                Some(child) => Some(child.name@),
                None => None,
            },
        }
    }
}

/// The nodes of a trie, the root first. `places` gives the place of each
/// node, and `index` the node at each place.
#[verifier::reject_recursive_types(H)]
struct Arena<H> {
    nodes: Vec<Node<H>>,
    places: Ghost<Seq<Seq<Edge>>>,
    index: Ghost<Map<Seq<Edge>, int>>,
}

impl<H> Arena<H> {
    /// Node `child` hangs under node `parent` by the last edge of its place.
    spec fn linked(self, parent: int, child: int) -> bool {
        let place = self.places@[child];
        &&& 0 <= parent < self.nodes@.len()
        &&& place.len() > 0
        &&& self.places@[parent] == place.drop_last()
        &&& match place.last() {
            Edge::Literal(text) => self.nodes@[parent].children@.contains_key(text)
                && self.nodes@[parent].children@[text] == child,
            Edge::Parameter => self.nodes@[parent].parameter is Some
                && self.nodes@[parent].parameter->0.node == child,
        }
    }

    /// Node `child` hangs under the node at the place above its own.
    spec fn hangs(self, child: int) -> bool {
        let place = self.places@[child];
        &&& place.len() > 0
        &&& self.index@.contains_key(place.drop_last())
        &&& self.linked(self.index@[place.drop_last()], child)
    }

    /// The root is the first node and stands at the empty place. `places`
    /// and `index` are the two directions of one pairing of nodes and places.
    /// Each child that a node holds stands at the node's place with the
    /// child's edge added, and each node but the root hangs under the node
    /// above it.
    spec fn inv(self) -> bool {
        &&& self.nodes@.len() >= 1
        &&& self.places@.len() == self.nodes@.len()
        &&& self.places@[0] == Seq::<Edge>::empty()
        &&& forall|i: int|
            0 <= i < self.nodes@.len() ==> self.index@.contains_key(#[trigger] self.places@[i])
                && self.index@[self.places@[i]] == i
        &&& forall|place: Seq<Edge>| #[trigger]
            self.index@.contains_key(place) ==> 0 <= self.index@[place] < self.nodes@.len()
                && self.places@[self.index@[place]] == place
        &&& forall|i: int, text: Seq<char>|
            0 <= i < self.nodes@.len() && #[trigger] self.nodes@[i].children@.contains_key(text)
                ==> 0 <= self.nodes@[i].children@[text] < self.nodes@.len()
                && self.places@[self.nodes@[i].children@[text] as int] == self.places@[i].push(
                Edge::Literal(text),
            )
        &&& forall|i: int|
            0 <= i < self.nodes@.len() && (#[trigger] self.nodes@[i]).parameter is Some ==> 0
                <= self.nodes@[i].parameter->0.node < self.nodes@.len()
                && self.places@[self.nodes@[i].parameter->0.node as int] == self.places@[i].push(
                Edge::Parameter,
            )
        &&& forall|c: int|
            0 < c < self.nodes@.len() ==> (#[trigger] self.places@[c]).len() > 0 && self.hangs(c)
    }

    /// The trie that the arena holds: at each place the node that stands
    /// there.
    spec fn view(self) -> TrieView<H> {
        TrieView {
            nodes: Map::new(
                |place: Seq<Edge>| self.index@.contains_key(place),
                |place: Seq<Edge>| self.nodes@[self.index@[place]]@,
            ),
        }
    }

    /// The view of an arena that holds its invariant is well-formed.
    proof fn lemma_view_wf(self)
        requires
            self.inv(),
        ensures
            self@.wf(),
    {
        let trie = self@;
        assert(self.index@.contains_key(self.places@[0]));
        assert forall|place: Seq<Edge>| #[trigger]
            trie.nodes.contains_key(place) && place.len() > 0 implies trie.nodes.contains_key(
            place.drop_last(),
        ) by {
            let c = self.index@[place];
            assert(self.places@[c] == place);
        }
        assert forall|place: Seq<Edge>| #[trigger] trie.nodes.contains_key(place) implies (
        trie.nodes[place].parameter is Some <==> trie.nodes.contains_key(
            place.push(Edge::Parameter),
        )) by {
            let i = self.index@[place];
            if self.nodes@[i].parameter is Some {
                let c = self.nodes@[i].parameter->0.node as int;
                assert(self.index@.contains_key(self.places@[c]));
            } else {
                self.lemma_no_parameter_child(i);
            }
        }
    }

    /// Node `cur` has no literal child under `text`, so the trie has no node
    /// at that place.
    proof fn lemma_no_literal_child(self, cur: int, text: Seq<char>)
        requires
            self.inv(),
            0 <= cur < self.nodes@.len(),
            !self.nodes@[cur].children@.contains_key(text),
        ensures
            !self.index@.contains_key(self.places@[cur].push(Edge::Literal(text))),
    {
        let place = self.places@[cur].push(Edge::Literal(text));
        if self.index@.contains_key(place) {
            let c = self.index@[place];
            assert(self.places@[c] == place);
            assert(place.drop_last() == self.places@[cur]);
            assert(place.last() == Edge::Literal(text));
            assert(c != 0);
            assert(self.hangs(c));
        }
    }

    /// Node `cur` has no parameter child, so the trie has no node at that
    /// place.
    proof fn lemma_no_parameter_child(self, cur: int)
        requires
            self.inv(),
            0 <= cur < self.nodes@.len(),
            self.nodes@[cur].parameter is None,
        ensures
            !self.index@.contains_key(self.places@[cur].push(Edge::Parameter)),
    {
        let place = self.places@[cur].push(Edge::Parameter);
        if self.index@.contains_key(place) {
            let c = self.index@[place];
            assert(self.places@[c] == place);
            assert(place.drop_last() == self.places@[cur]);
            assert(place.last() == Edge::Parameter);
            assert(c != 0);
            assert(self.hangs(c));
        }
    }

    /// The arena of a trie without routes: the root alone.
    fn new() -> (arena: Self)
        ensures
            arena.inv(),
            arena@ == TrieView::<H>::empty(),
    {
        let mut nodes: Vec<Node<H>> = Vec::new();
        nodes.push(Node::new());
        let ghost root = Seq::<Edge>::empty();
        let arena = Arena {
            nodes,
            places: Ghost(Seq::<Seq<Edge>>::empty().push(root)),
            index: Ghost(Map::<Seq<Edge>, int>::empty().insert(root, 0)),
        };
        assert(arena@.nodes =~= TrieView::<H>::empty().nodes);
        arena
    }

    /// Goes from node `cur` to its literal child under `text`, which is made
    /// where it is missing.
    fn literal_child(&mut self, cur: usize, text: &String) -> (child: usize)
        requires
            old(self).inv(),
            cur < old(self).nodes@.len(),
        ensures
            final(self).inv(),
            child < final(self).nodes@.len(),
            final(self).places@[child as int] == old(self).places@[cur as int].push(
                Edge::Literal(text@),
            ),
            final(self)@ == old(self)@.grow(
                old(self).places@[cur as int],
                Segment::Literal(text@),
            ),
    {
        let ghost place = self.places@[cur as int];
        let ghost below = place.push(Edge::Literal(text@));
        let found = match self.nodes[cur].children.get(text.as_str()) {
            Some(child) => Some(*child),
            None => None,
        };
        match found {
            Some(child) => {
                assert(self@.nodes =~= self@.grow(place, Segment::Literal(text@)).nodes);
                child
            },
            None => {
                proof {
                    self.lemma_no_literal_child(cur as int, text@);
                }
                let child = self.nodes.len();
                self.nodes.push(Node::new());
                self.places = Ghost(self.places@.push(below));
                self.index = Ghost(self.index@.insert(below, child as int));
                self.nodes[cur].children.insert(text.clone(), child);
                assert forall|i: int, key: Seq<char>|
                    0 <= i < self.nodes@.len() && #[trigger] self.nodes@[i].children@.contains_key(
                        key,
                    ) implies 0 <= self.nodes@[i].children@[key] < self.nodes@.len()
                    && self.places@[self.nodes@[i].children@[key] as int] == self.places@[i].push(
                    Edge::Literal(key),
                ) by {
                    if i < child && !(i == cur && key == text@) {
                        assert(old(self).nodes@[i].children@.contains_key(key));
                    }
                }
                assert forall|c: int| 0 < c < self.nodes@.len() implies (#[trigger] self.places@[c]).len()
                    > 0 && self.hangs(c) by {
                    if c == child {
                        assert(below.drop_last() == place);
                        assert(below.last() == Edge::Literal(text@));
                    } else {
                        assert(old(self).hangs(c));
                        assert(old(self).places@[c].drop_last() != below);
                    }
                }
                assert(self.inv());
                assert(self@.nodes =~= old(self)@.grow(place, Segment::Literal(text@)).nodes);
                child
            },
        }
    }

    /// Goes from node `cur` to its parameter child, which is made where it is
    /// missing, and names it `name`.
    fn parameter_child(&mut self, cur: usize, name: String) -> (child: usize)
        requires
            old(self).inv(),
            cur < old(self).nodes@.len(),
        ensures
            final(self).inv(),
            child < final(self).nodes@.len(),
            final(self).places@[child as int] == old(self).places@[cur as int].push(
                Edge::Parameter,
            ),
            final(self)@ == old(self)@.grow(
                old(self).places@[cur as int],
                Segment::Parameter(name@),
            ),
    {
        let ghost place = self.places@[cur as int];
        let ghost below = place.push(Edge::Parameter);
        let ghost segment = Segment::Parameter(name@);
        let found = match &self.nodes[cur].parameter {
            Some(child) => Some(child.node),
            None => None,
        };
        match found {
            Some(child) => {
                self.nodes[cur].parameter = Some(ParameterChild { name, node: child });
                assert forall|i: int, key: Seq<char>|
                    0 <= i < self.nodes@.len() && #[trigger] self.nodes@[i].children@.contains_key(
                        key,
                    ) implies 0 <= self.nodes@[i].children@[key] < self.nodes@.len()
                    && self.places@[self.nodes@[i].children@[key] as int] == self.places@[i].push(
                    Edge::Literal(key),
                ) by {
                    assert(old(self).nodes@[i].children@.contains_key(key));
                }
                assert forall|c: int| 0 < c < self.nodes@.len() implies (#[trigger] self.places@[c]).len()
                    > 0 && self.hangs(c) by {
                    assert(old(self).hangs(c));
                }
                assert(self.inv());
                assert(self@.nodes =~= old(self)@.grow(place, segment).nodes);
                child
            },
            None => {
                proof {
                    self.lemma_no_parameter_child(cur as int);
                }
                let child = self.nodes.len();
                self.nodes.push(Node::new());
                self.places = Ghost(self.places@.push(below));
                self.index = Ghost(self.index@.insert(below, child as int));
                self.nodes[cur].parameter = Some(ParameterChild { name, node: child });
                assert forall|i: int, key: Seq<char>|
                    0 <= i < self.nodes@.len() && #[trigger] self.nodes@[i].children@.contains_key(
                        key,
                    ) implies 0 <= self.nodes@[i].children@[key] < self.nodes@.len()
                    && self.places@[self.nodes@[i].children@[key] as int] == self.places@[i].push(
                    Edge::Literal(key),
                ) by {
                    if i < child {
                        assert(old(self).nodes@[i].children@.contains_key(key));
                    }
                }
                assert forall|c: int| 0 < c < self.nodes@.len() implies (#[trigger] self.places@[c]).len()
                    > 0 && self.hangs(c) by {
                    if c == child {
                        assert(below.drop_last() == place);
                        assert(below.last() == Edge::Parameter);
                    } else {
                        assert(old(self).hangs(c));
                        assert(old(self).places@[c].drop_last() != below);
                    }
                }
                assert(self.inv());
                assert(self@.nodes =~= old(self)@.grow(place, segment).nodes);
                child
            },
        }
    }

    /// Registers `handler` for `method` under `pattern`: walks down the
    /// segments of the pattern, making the children that are missing, and
    /// puts the handler at the node where the walk ends.
    fn insert(&mut self, pattern: &str, method: &str, handler: H)
        requires
            old(self).inv(),
        ensures
            final(self).inv(),
            final(self)@ == old(self)@.with_route(pattern_of(pattern@), method@, handler),
    {
        let segs = split_path(pattern);
        let ghost route = pattern_of(pattern@);
        let mut cur: usize = 0;
        let mut i: usize = 0;
        proof {
            assert(route.take(0) == Seq::<Segment>::empty());
            assert(place_of(route.take(0)) == Seq::<Edge>::empty());
            lemma_with_path_none(self@);
        }
        while i < segs.len()
            invariant
                self.inv(),
                i <= segs.len(),
                segs.deep_view() == segments(pattern@),
                route == pattern_of(pattern@),
                cur < self.nodes@.len(),
                self.places@[cur as int] == place_of(route.take(i as int)),
                self@ == old(self)@.with_path(route.take(i as int)),
                old(self)@.nodes.contains_key(Seq::empty()),
            decreases segs.len() - i,
        {
            proof {
                assert(segs[i as int]@ == segments(pattern@)[i as int]);
                assert(route[i as int] == segment_of(segs[i as int]@));
                lemma_with_path_grow(old(self)@, route, i as int);
            }
            cur = match parameter_name(&segs[i]) {
                Some(name) => self.parameter_child(cur, name),
                None => self.literal_child(cur, &segs[i]),
            };
            i += 1;
        }
        assert(route.take(i as int) == route);
        let ghost grown = *self;
        self.nodes[cur].handlers.insert(method.to_string(), handler);
        assert forall|i: int, key: Seq<char>|
            0 <= i < self.nodes@.len() && #[trigger] self.nodes@[i].children@.contains_key(
                key,
            ) implies 0 <= self.nodes@[i].children@[key] < self.nodes@.len()
            && self.places@[self.nodes@[i].children@[key] as int] == self.places@[i].push(
            Edge::Literal(key),
        ) by {
            assert(grown.nodes@[i].children@.contains_key(key));
        }
        assert forall|c: int| 0 < c < self.nodes@.len() implies (#[trigger] self.places@[c]).len()
            > 0 && self.hangs(c) by {
            assert(grown.hangs(c));
        }
        assert(self.inv());
        assert(self@.nodes =~= old(self)@.with_route(route, method@, handler).nodes);
    }

    /// Resolves a path and a method: walks down the segments of the path, a
    /// literal child before the parameter child, and looks for the method at
    /// the node where the walk ends.
    fn resolve(&self, path: &str, method: &str) -> (found: RouteMatch<'_, H>)
        requires
            self.inv(),
        ensures
            found@ == self@.resolve(segments(path@), method@),
    {
        let segs = split_path(path);
        let ghost path_segs = segments(path@);
        let mut cur: usize = 0;
        let mut params: StringHashMap<String> = StringHashMap::new();
        let mut i: usize = 0;
        assert(text_map(params@) == Map::<Seq<char>, Seq<char>>::empty());
        assert(path_segs.take(0) == Seq::<Seq<char>>::empty());
        while i < segs.len()
            invariant
                self.inv(),
                i <= segs.len(),
                segs.deep_view() == path_segs,
                path_segs == segments(path@),
                cur < self.nodes@.len(),
                self@.descend(path_segs.take(i as int)) == Some(
                    Walk { place: self.places@[cur as int], params: text_map(params@) },
                ),
            decreases segs.len() - i,
        {
            let ghost place = self.places@[cur as int];
            let ghost bound = text_map(params@);
            let ghost segment = path_segs[i as int];
            proof {
                assert(path_segs.take(i + 1).drop_last() == path_segs.take(i as int));
                assert(path_segs.take(i + 1).last() == segment);
                assert(segs[i as int]@ == segment);
                assert(self@.descend(path_segs.take(i + 1)) == self@.step(
                    Walk { place, params: bound },
                    segment,
                ));
            }
            let node = &self.nodes[cur];
            match node.children.get(segs[i].as_str()) {
                Some(child) => {
                    cur = *child;
                },
                None => {
                    proof {
                        self.lemma_no_literal_child(cur as int, segment);
                    }
                    match &node.parameter {
                        Some(child) => {
                            params.insert(child.name.clone(), segs[i].clone());
                            assert(text_map(params@) == bound.insert(child.name@, segment));
                            cur = child.node;
                        },
                        None => {
                            proof {
                                lemma_descend_none(self@, path_segs, i + 1);
                            }
                            return RouteMatch::NotFound;
                        },
                    }
                },
            }
            i += 1;
        }
        assert(path_segs.take(i as int) == path_segs);
        let node = &self.nodes[cur];
        match node.handlers.get(method) {
            Some(handler) => RouteMatch::Found(handler, params),
            None => {
                if node.handlers.is_empty() {
                    RouteMatch::NotFound
                } else {
                    RouteMatch::WrongMethod
                }
            },
        }
    }
}

/// The request router: a trie that maps a route pattern and a method to a
/// handler, and resolves a concrete path and a method to the handler and the
/// parameters that the path binds.
#[verifier::reject_recursive_types(H)]
pub struct PrefixTree<H> {
    arena: Arena<H>,
}

impl<H> View for PrefixTree<H> {
    type V = TrieView<H>;

    closed spec fn view(&self) -> TrieView<H> {
        self.arena@
    }
}

impl<H> PrefixTree<H> {
    #[verifier::type_invariant]
    spec fn well_formed(self) -> bool {
        self.arena.inv()
    }

    /// A trie without routes.
    pub fn new() -> (tree: Self)
        ensures
            tree@ == TrieView::<H>::empty(),
            tree@.wf(),
    {
        let arena = Arena::new();
        proof {
            arena.lemma_view_wf();
        }
        PrefixTree { arena }
    }

    /// Resolves a request path and a method to the handler that is
    /// registered for them and the parameters that the path binds. There is
    /// none where the path leads to no node, and where the node has no
    /// handler for the method.
    pub fn search(&self, path: &str, method: &str) -> (found: Option<
        (&H, StringHashMap<String>),
    >)
        ensures
            self@.wf(),
            match found {
                Some((handler, params)) => self@.resolve(segments(path@), method@)
                    == (Resolution::Found { handler: *handler, params: text_map(params@) }),
                None => !(self@.resolve(segments(path@), method@) is Found),
            },
    {
        match self.resolve(path, method) {
            RouteMatch::Found(handler, params) => Some((handler, params)),
            _ => None,
        }
    }

    /// Registers `handler` for `method` under the pattern `path`. A handler
    /// that was registered for the same pattern and method is replaced. A
    /// node has one parameter child: where the pattern names it otherwise
    /// than an earlier pattern did, the new name holds from now on.
    pub fn insert(&mut self, path: &str, method: &str, handler: H)
        ensures
            final(self)@ == old(self)@.with_route(pattern_of(path@), method@, handler),
            final(self)@.wf(),
            final(self)@.has_route(pattern_of(path@), method@, handler),
    {
        proof {
            use_type_invariant(&*self);
            self.arena.lemma_view_wf();
            lemma_with_route_has_route(self@, pattern_of(path@), method@, handler);
        }
        // The arena is taken out while it changes, so that the trie is whole
        // at every moment, also if the insertion unwinds.
        let mut arena = Arena::new();
        std::mem::swap(&mut self.arena, &mut arena);
        arena.insert(path, method, handler);
        proof {
            arena.lemma_view_wf();
        }
        self.arena = arena;
    }

    /// Resolves a request path and a method, and tells a path that leads to
    /// no handler from one that leads to handlers for other methods.
    pub fn resolve(&self, path: &str, method: &str) -> (found: RouteMatch<'_, H>)
        ensures
            self@.wf(),
            found@ == self@.resolve(segments(path@), method@),
    {
        proof {
            use_type_invariant(self);
            self.arena.lemma_view_wf();
        }
        self.arena.resolve(path, method)
    }
}

/// The name of the parameter that a segment of a pattern writes, where it
/// writes one.
fn parameter_name(segment: &String) -> (name: Option<String>)
    ensures
        match name {
            Some(n) => segment_of(segment@) == Segment::Parameter(n@),
            None => segment_of(segment@) == Segment::Literal(segment@),
        },
{
    let chars = chars_of(segment.as_str());
    let n = chars.len();
    if n >= 2 && chars[0] == '{' && chars[n - 1] == '}' {
        Some(string_of(slice_subrange(chars.as_slice(), 1, n - 1)))
    } else {
        None
    }
}

} // verus!
