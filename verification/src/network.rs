//! Assembly of the walkable network and the searchable names from the
//! elements of an OSM extract, streamed in two passes: ways first (to learn
//! which node ids are needed, and to note named streets), then nodes (to
//! resolve those coordinates and to pick up localities and stations).
//!
//! Segment lengths are great-circle distances, computed by the caller from
//! the coordinates each [`Segment`] carries; [`directed_edges`] then turns
//! the segments into the edges of the graph.
use crate::model::{views, Edge, Node, Place, PlaceKind, PlaceView};
use crate::tags::{
    foot_accessible, get_tag, place_from_tags, spec_foot_accessible, spec_place_from_tags, spec_place_kind, tag_value,
    tags_view,
};
use std::collections::HashMap;
use vstd::hash_map::StringHashMap;
use vstd::prelude::*;

verus! {

broadcast use vstd::std_specs::hash::group_hash_axioms;

/// A walkable segment between two consecutive nodes of a way, with both
/// coordinates resolved.
#[derive(Debug, Clone, Copy, PartialEq, Eq, Structural)]
pub struct Segment {
    pub from: i64,
    pub to: i64,
    pub from_lat_bits: u64,
    pub from_lon_bits: u64,
    pub to_lat_bits: u64,
    pub to_lon_bits: u64,
}

/// What a builder has gathered so far.
pub struct NetworkModel {
    /// Node-id sequences of the walkable ways, in the order they came.
    pub ways: Seq<Seq<i64>>,
    /// Each street name with a node of the first highway way that bore it.
    pub anchors: Seq<(Seq<char>, i64)>,
    /// The node ids whose coordinates are wanted.
    pub needed: Set<i64>,
    /// The coordinates resolved so far, for needed ids only.
    pub coords: Map<i64, (u64, u64)>,
    /// The localities and stations met so far.
    pub places: Seq<PlaceView>,
}

/// Whether a street name already has an anchor.
pub open spec fn has_anchor(anchors: Seq<(Seq<char>, i64)>, name: Seq<char>) -> bool {
    exists|i: int| 0 <= i < anchors.len() && (#[trigger] anchors[i]).0 == name
}

/// The ids occurring in `s`.
pub open spec fn id_set(s: Seq<i64>) -> Set<i64> {
    Set::new(|x: i64| s.contains(x))
}

/// Whether a way with tags `t` and node ids `refs` anchors a street name not
/// seen before: a named highway with at least one node.
pub open spec fn anchors_new_street(m: NetworkModel, t: Seq<(Seq<char>, Seq<char>)>, refs: Seq<i64>) -> bool {
    &&& tag_value(t, "highway"@) is Some
    &&& tag_value(t, "name"@) is Some
    &&& refs.len() > 0
    &&& !has_anchor(m.anchors, tag_value(t, "name"@)->0)
}

/// The effect of one way of the first pass: a named highway anchors its name
/// at its first node (the first such way wins), and a walkable way is kept
/// with all its nodes needed.
pub open spec fn after_way(m: NetworkModel, t: Seq<(Seq<char>, Seq<char>)>, refs: Seq<i64>) -> NetworkModel {
    let walk = spec_foot_accessible(t);
    let anchor = anchors_new_street(m, t, refs);
    NetworkModel {
        ways: if walk {
            m.ways.push(refs)
        } else {
            m.ways
        },
        anchors: if anchor {
            m.anchors.push((tag_value(t, "name"@)->0, refs[0]))
        } else {
            m.anchors
        },
        needed: m.needed.union(
            if walk {
                id_set(refs)
            } else {
                Set::empty()
            },
        ).union(
            if anchor {
                set![refs[0]]
            } else {
                Set::empty()
            },
        ),
        coords: m.coords,
        places: m.places,
    }
}

/// The effect of one node of the second pass: a needed node gets its
/// coordinate (the last occurrence wins), and a searchable place is kept.
pub open spec fn after_node(
    m: NetworkModel,
    id: i64,
    lat_bits: u64,
    lon_bits: u64,
    t: Seq<(Seq<char>, Seq<char>)>,
) -> NetworkModel {
    NetworkModel {
        ways: m.ways,
        anchors: m.anchors,
        needed: m.needed,
        coords: if m.needed.contains(id) {
            m.coords.insert(id, (lat_bits, lon_bits))
        } else {
            m.coords
        },
        places: match spec_place_from_tags(lat_bits, lon_bits, t) {
            Some(p) => m.places.push(p),
            None => m.places,
        },
    }
}

/// The street places: each anchored name whose anchor node was resolved.
pub open spec fn anchor_places(anchors: Seq<(Seq<char>, i64)>, coords: Map<i64, (u64, u64)>) -> Seq<PlaceView>
    decreases anchors.len(),
{
    if anchors.len() == 0 {
        Seq::empty()
    } else {
        let (name, id) = anchors.last();
        anchor_places(anchors.drop_last(), coords) + if coords.contains_key(id) {
            seq![PlaceView { name, kind: PlaceKind::Street, lat_bits: coords[id].0, lon_bits: coords[id].1 }]
        } else {
            Seq::empty()
        }
    }
}

proof fn lemma_id_set_push(s: Seq<i64>, x: i64)
    ensures
        id_set(s.push(x)) == id_set(s).insert(x),
{
    assert forall|y: i64| #[trigger] id_set(s.push(x)).contains(y) == id_set(s).insert(x).contains(y) by {
        if s.push(x).contains(y) {
            let j = choose|j: int| 0 <= j < s.len() + 1 && #[trigger] s.push(x)[j] == y;
            if j < s.len() {
                assert(s[j] == y);
            }
        }
        if s.contains(y) {
            let j = choose|j: int| 0 <= j < s.len() && #[trigger] s[j] == y;
            assert(s.push(x)[j] == y);
        }
        if y == x {
            assert(s.push(x)[s.len() as int] == x);
        }
    }
    assert(id_set(s.push(x)) =~= id_set(s).insert(x));
}

proof fn lemma_has_anchor_push(anchors: Seq<(Seq<char>, i64)>, a: (Seq<char>, i64))
    ensures
        forall|name: Seq<char>| #[trigger] has_anchor(anchors.push(a), name) == (has_anchor(anchors, name) || name == a.0),
{
    assert forall|name: Seq<char>| #[trigger] has_anchor(anchors.push(a), name) == (has_anchor(anchors, name) || name == a.0) by {
        if has_anchor(anchors.push(a), name) {
            let i = choose|i: int| 0 <= i < anchors.len() + 1 && (#[trigger] anchors.push(a)[i]).0 == name;
            if i < anchors.len() {
                assert(anchors[i].0 == name);
            }
        }
        if has_anchor(anchors, name) {
            let i = choose|i: int| 0 <= i < anchors.len() && (#[trigger] anchors[i]).0 == name;
            assert(anchors.push(a)[i] == anchors[i]);
        }
        if name == a.0 {
            assert(anchors.push(a)[anchors.len() as int] == a);
        }
    }
}

/// The segment between two resolved nodes.
pub open spec fn segment(a: i64, b: i64, coords: Map<i64, (u64, u64)>) -> Segment {
    Segment {
        from: a,
        to: b,
        from_lat_bits: coords[a].0,
        from_lon_bits: coords[a].1,
        to_lat_bits: coords[b].0,
        to_lon_bits: coords[b].1,
    }
}

/// The segments of one way: every pair of consecutive nodes that are both
/// resolved (ways can reference nodes missing from a clipped extract).
pub open spec fn way_segments(w: Seq<i64>, coords: Map<i64, (u64, u64)>) -> Seq<Segment>
    decreases w.len(),
{
    if w.len() < 2 {
        Seq::empty()
    } else {
        let a = w[w.len() - 2];
        let b = w.last();
        way_segments(w.drop_last(), coords) + if coords.contains_key(a) && coords.contains_key(b) {
            seq![segment(a, b, coords)]
        } else {
            Seq::empty()
        }
    }
}

/// The segments of all ways, way after way.
pub open spec fn ways_segments(ws: Seq<Seq<i64>>, coords: Map<i64, (u64, u64)>) -> Seq<Segment>
    decreases ws.len(),
{
    if ws.len() == 0 {
        Seq::empty()
    } else {
        ways_segments(ws.drop_last(), coords) + way_segments(ws.last(), coords)
    }
}

/// The node of a resolved id.
pub open spec fn resolved_node(id: i64, coords: Map<i64, (u64, u64)>) -> Node {
    Node { id: id as u64, lat_bits: coords[id].0, lon_bits: coords[id].1 }
}

/// The routable network plus the names a user can search for.
pub struct Network {
    pub nodes: Vec<Node>,
    pub segments: Vec<Segment>,
    pub places: Vec<Place>,
}

/// Gathers the network from the two passes over an extract.
pub struct NetworkBuilder {
    ways: Vec<Vec<i64>>,
    anchors: Vec<(String, i64)>,
    anchor_names: StringHashMap<()>,
    needed_ids: Vec<i64>,
    needed_index: HashMap<i64, usize>,
    coords: Vec<Option<(u64, u64)>>,
    places: Vec<Place>,
}

impl View for NetworkBuilder {
    type V = NetworkModel;

    closed spec fn view(&self) -> NetworkModel {
        NetworkModel {
            ways: self.ways@.map_values(|w: Vec<i64>| w@),
            anchors: self.anchors@.map_values(|a: (String, i64)| (a.0@, a.1)),
            needed: self.needed_index@.dom(),
            coords: Map::new(
                |id: i64|
                    self.needed_index@.contains_key(id) && self.coords@[self.needed_index@[id] as int] is Some,
                |id: i64| self.coords@[self.needed_index@[id] as int]->0,
            ),
            places: views(self.places@),
        }
    }
}

impl NetworkBuilder {
    /// The internal indexes agree with each other.
    pub closed spec fn wf(&self) -> bool {
        &&& self.coords@.len() == self.needed_ids@.len()
        &&& forall|id: i64| #[trigger]
            self.needed_index@.contains_key(id) ==> self.needed_index@[id] < self.needed_ids@.len()
                && self.needed_ids@[self.needed_index@[id] as int] == id
        &&& forall|i: int| 0 <= i < self.needed_ids@.len() ==> self.needed_index@.contains_key(
            #[trigger] self.needed_ids@[i],
        ) && self.needed_index@[self.needed_ids@[i]] == i
        &&& forall|name: Seq<char>| #[trigger]
            self.anchor_names@.contains_key(name) == has_anchor(self@.anchors, name)
    }

    /// An empty builder.
    pub fn new() -> (b: Self)
        ensures
            b.wf(),
            b@.ways.len() == 0,
            b@.anchors.len() == 0,
            b@.needed == Set::<i64>::empty(),
            b@.coords == Map::<i64, (u64, u64)>::empty(),
            b@.places.len() == 0,
    {
        let b = NetworkBuilder {
            ways: Vec::new(),
            anchors: Vec::new(),
            anchor_names: StringHashMap::new(),
            needed_ids: Vec::new(),
            needed_index: HashMap::new(),
            coords: Vec::new(),
            places: Vec::new(),
        };
        assert(b@.needed =~= Set::<i64>::empty());
        assert(b@.coords =~= Map::<i64, (u64, u64)>::empty());
        b
    }

    fn need(&mut self, id: i64)
        requires
            old(self).wf(),
        ensures
            final(self).wf(),
            final(self)@ == (NetworkModel { needed: old(self)@.needed.insert(id), ..old(self)@ }),
    {
        if !self.needed_index.contains_key(&id) {
            let k = self.needed_ids.len();
            let ghost old_coords = self@.coords;
            self.needed_ids.push(id);
            self.coords.push(None);
            self.needed_index.insert(id, k);
            assert(self@.needed =~= old(self)@.needed.insert(id));
            assert(self@.coords =~= old_coords) by {
                assert forall|x: i64| #[trigger] self@.coords.contains_key(x) == old_coords.contains_key(x) by {
                    if x != id && old(self).needed_index@.contains_key(x) {
                        assert(old(self).needed_index@[x] < k);
                    }
                }
            }
            assert(self@.ways =~= old(self)@.ways);
            assert(self@.anchors =~= old(self)@.anchors);
            assert(self@.places =~= old(self)@.places);
        } else {
            assert(self@.needed =~= old(self)@.needed.insert(id));
        }
    }

    /// Takes in one way of the first pass.
    pub fn add_way(&mut self, tags: &[(&str, &str)], refs: Vec<i64>)
        requires
            old(self).wf(),
        ensures
            final(self).wf(),
            final(self)@ == after_way(old(self)@, tags_view(tags@), refs@),
    {
        let ghost m0 = self@;
        let ghost t = tags_view(tags@);
        let highway = get_tag(tags, "highway");
        let name = get_tag(tags, "name");
        if highway.is_some() && name.is_some() && refs.len() > 0 {
            let n = name.unwrap();
            if !self.anchor_names.contains_key(n) {
                let ghost old_anchors = self@.anchors;
                self.anchor_names.insert(n.to_owned(), ());
                self.anchors.push((n.to_owned(), refs[0]));
                proof {
                    assert(self@.anchors =~= old_anchors.push((n@, refs@[0])));
                    lemma_has_anchor_push(old_anchors, (n@, refs@[0]));
                }
                self.need(refs[0]);
            }
        }
        assert(self@.anchors =~= after_way(m0, t, refs@).anchors);
        let walk = foot_accessible(tags);
        if walk {
            let ghost base = self@.needed;
            let mut i: usize = 0;
            assert(id_set(refs@.take(0)) =~= Set::<i64>::empty());
            while i < refs.len()
                invariant
                    self.wf(),
                    0 <= i <= refs@.len(),
                    self@.needed == base.union(id_set(refs@.take(i as int))),
                    self@.ways == m0.ways,
                    self@.anchors == after_way(m0, t, refs@).anchors,
                    self@.coords == m0.coords,
                    self@.places == m0.places,
                decreases refs@.len() - i,
            {
                self.need(refs[i]);
                proof {
                    assert(refs@.take(i + 1) =~= refs@.take(i as int).push(refs@[i as int]));
                    lemma_id_set_push(refs@.take(i as int), refs@[i as int]);
                }
                i = i + 1;
            }
            assert(refs@.take(refs@.len() as int) =~= refs@);
            let ghost before_ways = self.ways@;
            self.ways.push(refs);
            assert(self@.ways =~= m0.ways.push(refs@));
        }
        assert(self@.needed =~= after_way(m0, t, refs@).needed);
    }

    /// Takes in one node of the second pass.
    pub fn add_node(&mut self, id: i64, lat_bits: u64, lon_bits: u64, tags: &[(&str, &str)])
        requires
            old(self).wf(),
        ensures
            final(self).wf(),
            final(self)@ == after_node(old(self)@, id, lat_bits, lon_bits, tags_view(tags@)),
    {
        let ghost m0 = self@;
        match self.needed_index.get(&id) {
            Some(k) => {
                let k = *k;
                self.coords.set(k, Some((lat_bits, lon_bits)));
                assert(self@.coords =~= m0.coords.insert(id, (lat_bits, lon_bits)));
            },
            None => {},
        }
        match place_from_tags(lat_bits, lon_bits, tags) {
            Some(p) => {
                self.places.push(p);
                assert(self@.places =~= m0.places.push(p@));
            },
            None => {},
        }
        assert(self@.ways =~= m0.ways);
        assert(self@.anchors =~= m0.anchors);
    }

    /// The coordinate resolved for `id`, if any.
    fn coord_of(&self, id: i64) -> (r: Option<(u64, u64)>)
        requires
            self.wf(),
        ensures
            r == (if self@.coords.contains_key(id) {
                Some(self@.coords[id])
            } else {
                None
            }),
    {
        match self.needed_index.get(&id) {
            Some(k) => self.coords[*k],
            None => None,
        }
    }

    /// Ends the second pass: the resolved nodes, the walkable segments, and
    /// the places, streets last.
    pub fn finish(self) -> (net: Network)
        requires
            self.wf(),
        ensures
            views(net.places@) == self@.places + anchor_places(self@.anchors, self@.coords),
            net.segments@ == ways_segments(self@.ways, self@.coords),
            forall|n: Node| #[trigger]
                net.nodes@.contains(n) <==> exists|id: i64|
                    self@.coords.contains_key(id) && n == #[trigger] resolved_node(id, self@.coords),
            forall|i: int, j: int| 0 <= i < j < net.nodes@.len() ==> net.nodes@[i].id != net.nodes@[j].id,
    {
        let ghost m = self@;
        // Street places.
        let ghost av = m.anchors;
        let mut streets: Vec<Place> = Vec::new();
        let mut i: usize = 0;
        assert(av.take(0) =~= Seq::<(Seq<char>, i64)>::empty());
        while i < self.anchors.len()
            invariant
                self.wf(),
                m == self@,
                av == m.anchors,
                av.len() == self.anchors@.len(),
                0 <= i <= av.len(),
                views(streets@) == anchor_places(av.take(i as int), m.coords),
            decreases av.len() - i,
        {
            let name = &self.anchors[i].0;
            let id = self.anchors[i].1;
            assert(av[i as int] == (name@, id));
            assert(av.take(i + 1).drop_last() =~= av.take(i as int));
            match self.coord_of(id) {
                Some((lat_bits, lon_bits)) => {
                    streets.push(Place { name: name.clone(), kind: PlaceKind::Street, lat_bits, lon_bits });
                },
                None => {},
            }
            assert(views(streets@) =~= anchor_places(av.take(i + 1), m.coords));
            i = i + 1;
        }
        assert(av.take(i as int) =~= av);
        // Segments.
        let ghost wv = m.ways;
        let mut segments: Vec<Segment> = Vec::new();
        let mut wi: usize = 0;
        assert(wv.take(0) =~= Seq::<Seq<i64>>::empty());
        while wi < self.ways.len()
            invariant
                self.wf(),
                m == self@,
                wv == m.ways,
                wv.len() == self.ways@.len(),
                0 <= wi <= wv.len(),
                segments@ == ways_segments(wv.take(wi as int), m.coords),
            decreases wv.len() - wi,
        {
            let w = &self.ways[wi];
            assert(wv[wi as int] == w@);
            let ghost prefix = segments@;
            let mut k: usize = 0;
            assert(w@.take(0) =~= Seq::<i64>::empty());
            while k < w.len()
                invariant
                    self.wf(),
                    m == self@,
                    0 <= k <= w@.len(),
                    segments@ == prefix + way_segments(w@.take(k as int), m.coords),
                decreases w@.len() - k,
            {
                assert(w@.take(k + 1).drop_last() =~= w@.take(k as int));
                if k >= 1 {
                    let a = w[k - 1];
                    let b = w[k];
                    assert(w@.take(k + 1)[k - 1] == a && w@.take(k + 1).last() == b);
                    match (self.coord_of(a), self.coord_of(b)) {
                        (Some((alat, alon)), Some((blat, blon))) => {
                            segments.push(
                                Segment {
                                    from: a,
                                    to: b,
                                    from_lat_bits: alat,
                                    from_lon_bits: alon,
                                    to_lat_bits: blat,
                                    to_lon_bits: blon,
                                },
                            );
                        },
                        _ => {},
                    }
                }
                assert(segments@ =~= prefix + way_segments(w@.take(k + 1), m.coords));
                k = k + 1;
            }
            assert(w@.take(k as int) =~= w@);
            assert(wv.take(wi + 1).drop_last() =~= wv.take(wi as int));
            assert(segments@ =~= ways_segments(wv.take(wi + 1), m.coords));
            wi = wi + 1;
        }
        assert(wv.take(wi as int) =~= wv);
        // Nodes.
        let mut nodes: Vec<Node> = Vec::new();
        let mut j: usize = 0;
        while j < self.needed_ids.len()
            invariant
                self.wf(),
                m == self@,
                0 <= j <= self.needed_ids@.len(),
                forall|n: Node| #[trigger] nodes@.contains(n) <==> exists|q: int|
                    0 <= q < j && self.coords@[q] is Some && n == #[trigger] resolved_node(
                        self.needed_ids@[q],
                        m.coords,
                    ),
                forall|p: int| 0 <= p < nodes@.len() ==> exists|q: int|
                    0 <= q < j && (#[trigger] nodes@[p]).id == self.needed_ids@[q] as u64,
                forall|p: int, r: int| 0 <= p < r < nodes@.len() ==> nodes@[p].id != nodes@[r].id,
            decreases self.needed_ids@.len() - j,
        {
            let id = self.needed_ids[j];
            match self.coords[j] {
                Some((lat_bits, lon_bits)) => {
                    proof {
                        assert(self.needed_index@[id] == j);
                        assert(m.coords.contains_key(id));
                        assert(m.coords[id] == (lat_bits, lon_bits));
                        assert forall|p: int| 0 <= p < nodes@.len() implies (#[trigger] nodes@[p]).id != id as u64 by {
                            let q = choose|q: int| 0 <= q < j && nodes@[p].id == self.needed_ids@[q] as u64;
                            let other = self.needed_ids@[q];
                            assert(self.needed_index@[other] == q);
                            assert((other as u64) == (id as u64) ==> other == id) by (bit_vector);
                        }
                    }
                    let ghost before = nodes@;
                    nodes.push(Node { id: id as u64, lat_bits, lon_bits });
                    proof {
                        assert(nodes@[nodes@.len() - 1] == resolved_node(id, m.coords));
                        assert forall|n: Node| #[trigger] nodes@.contains(n) <==> exists|q: int|
                            0 <= q < j + 1 && self.coords@[q] is Some && n == #[trigger] resolved_node(
                                self.needed_ids@[q],
                                m.coords,
                            ) by {
                            if nodes@.contains(n) {
                                let p = choose|p: int| 0 <= p < nodes@.len() && nodes@[p] == n;
                                if p < before.len() {
                                    assert(before.contains(n));
                                } else {
                                    assert(n == resolved_node(self.needed_ids@[j as int], m.coords));
                                }
                            }
                            if exists|q: int| 0 <= q < j + 1 && self.coords@[q] is Some && n == #[trigger] resolved_node(
                                self.needed_ids@[q],
                                m.coords,
                            ) {
                                let q = choose|q: int| 0 <= q < j + 1 && self.coords@[q] is Some && n == #[trigger] resolved_node(
                                    self.needed_ids@[q],
                                    m.coords,
                                );
                                if q < j {
                                    assert(before.contains(n));
                                    let p = choose|p: int| 0 <= p < before.len() && before[p] == n;
                                    assert(nodes@[p] == n);
                                } else {
                                    assert(nodes@[nodes@.len() - 1] == n);
                                }
                            }
                        }
                        assert forall|p: int| 0 <= p < nodes@.len() implies exists|q: int|
                            0 <= q < j + 1 && (#[trigger] nodes@[p]).id == self.needed_ids@[q] as u64 by {
                            if p < before.len() {
                                assert(nodes@[p] == before[p]);
                            } else {
                                assert(nodes@[p].id == self.needed_ids@[j as int] as u64);
                            }
                        }
                    }
                },
                None => {
                    proof {
                        assert forall|n: Node| #[trigger] nodes@.contains(n) <==> exists|q: int|
                            0 <= q < j + 1 && self.coords@[q] is Some && n == #[trigger] resolved_node(
                                self.needed_ids@[q],
                                m.coords,
                            ) by {
                            if exists|q: int| 0 <= q < j + 1 && self.coords@[q] is Some && n == #[trigger] resolved_node(
                                self.needed_ids@[q],
                                m.coords,
                            ) {
                                let q = choose|q: int| 0 <= q < j + 1 && self.coords@[q] is Some && n == #[trigger] resolved_node(
                                    self.needed_ids@[q],
                                    m.coords,
                                );
                                assert(q < j);
                            }
                        }
                    }
                },
            }
            j = j + 1;
        }
        proof {
            assert forall|n: Node| #[trigger] nodes@.contains(n) <==> exists|id: i64|
                m.coords.contains_key(id) && n == #[trigger] resolved_node(id, m.coords) by {
                if nodes@.contains(n) {
                    let q = choose|q: int| 0 <= q < j && self.coords@[q] is Some && n == #[trigger] resolved_node(
                        self.needed_ids@[q],
                        m.coords,
                    );
                    let id = self.needed_ids@[q];
                    assert(self.needed_index@[id] == q);
                    assert(m.coords.contains_key(id));
                }
                if exists|id: i64| m.coords.contains_key(id) && n == #[trigger] resolved_node(id, m.coords) {
                    let id = choose|id: i64| m.coords.contains_key(id) && n == #[trigger] resolved_node(id, m.coords);
                    let q = self.needed_index@[id] as int;
                    assert(self.needed_ids@[q] == id);
                    assert(self.coords@[q] is Some);
                    assert(n == resolved_node(self.needed_ids@[q], m.coords));
                }
            }
        }
        let mut places = self.places;
        let ghost own = places@;
        let ghost st = streets@;
        places.append(&mut streets);
        assert(views(places@) =~= views(own) + views(st));
        Network { nodes, segments, places }
    }
}


/// The two directed edges (walking is direction-agnostic) of each segment,
/// with the segment's length (binary64 bits) and no exposure yet.
pub open spec fn segment_edges(segs: Seq<Segment>, lengths: Seq<u64>) -> Seq<Edge>
    decreases segs.len(),
{
    if segs.len() == 0 {
        Seq::empty()
    } else {
        let s = segs.last();
        let len = lengths[segs.len() - 1];
        segment_edges(segs.drop_last(), lengths) + seq![
            Edge { from: s.from as u64, to: s.to as u64, length_bits: len, exposure_bits: 0 },
            Edge { from: s.to as u64, to: s.from as u64, length_bits: len, exposure_bits: 0 },
        ]
    }
}

/// Both directed edges of every segment, `lengths[k]` being the length of
/// `segments[k]`. The exposure of a new edge is 0.0 (all bits clear).
pub fn directed_edges(segments: &Vec<Segment>, lengths: &Vec<u64>) -> (edges: Vec<Edge>)
    requires
        lengths@.len() == segments@.len(),
    ensures
        edges@ == segment_edges(segments@, lengths@),
        edges@.len() == 2 * segments@.len(),
{
    let mut edges: Vec<Edge> = Vec::new();
    let mut k: usize = 0;
    assert(segments@.take(0) =~= Seq::<Segment>::empty());
    while k < segments.len()
        invariant
            0 <= k <= segments@.len(),
            lengths@.len() == segments@.len(),
            edges@ == segment_edges(segments@.take(k as int), lengths@),
            edges@.len() == 2 * k,
        decreases segments@.len() - k,
    {
        let s = segments[k];
        let len = lengths[k];
        edges.push(Edge { from: s.from as u64, to: s.to as u64, length_bits: len, exposure_bits: 0 });
        edges.push(Edge { from: s.to as u64, to: s.from as u64, length_bits: len, exposure_bits: 0 });
        assert(segments@.take(k + 1).drop_last() =~= segments@.take(k as int));
        assert(edges@ =~= segment_edges(segments@.take(k + 1), lengths@));
        k = k + 1;
    }
    assert(segments@.take(k as int) =~= segments@);
    edges
}

/// What one node of the second pass does: a needed node gets exactly that
/// node's coordinate and no other coordinate changes; if its tags describe a
/// searchable place, one place is added, under the node's `name` and at the
/// node's own latitude and longitude; nothing else changes.
pub proof fn lemma_node_pass(
    m: NetworkModel,
    id: i64,
    lat_bits: u64,
    lon_bits: u64,
    t: Seq<(Seq<char>, Seq<char>)>,
)
    ensures
        ({
            let m2 = after_node(m, id, lat_bits, lon_bits, t);
            &&& m2.ways == m.ways
            &&& m2.anchors == m.anchors
            &&& m2.needed == m.needed
            &&& m.needed.contains(id) ==> m2.coords.contains_key(id) && m2.coords[id] == (lat_bits, lon_bits)
            &&& !m.needed.contains(id) ==> m2.coords == m.coords
            &&& forall|other: i64| other != id ==> #[trigger] m2.coords.contains_key(other) == m.coords.contains_key(other)
                && (m.coords.contains_key(other) ==> m2.coords[other] == m.coords[other])
            &&& spec_place_kind(t) is None ==> m2.places == m.places
            &&& spec_place_kind(t) matches Some(kind) ==> m2.places == m.places.push(
                PlaceView { name: tag_value(t, "name"@)->0, kind, lat_bits, lon_bits },
            )
        }),
{
}

} // verus!
