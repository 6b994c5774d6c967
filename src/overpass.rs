//! Map elements of the pre-fetched hazard data: nodes, ways and relations,
//! each with its key/value tags.

use vstd::prelude::*;
use crate::geometry::Point;

verus! {

/// One key/value tag of an element.
pub struct Tag {
    pub key: String,
    pub value: String,
}

/// A member of a relation.
pub struct Member {
    pub member_type: String,
    pub reference: u64,
    pub role: String,
}

/// The bounding box of a way.
#[derive(Clone, Copy, Debug, PartialEq, Eq, Structural)]
pub struct OverpassBounds {
    pub max_lat: i32,
    pub max_lon: i32,
    pub min_lat: i32,
    pub min_lon: i32,
}

/// A map element.
pub enum Element {
    Node { id: u64, lat: i32, lon: i32, tags: Vec<Tag> },
    Way {
        bounds: OverpassBounds,
        geometry: Vec<Point>,
        id: u64,
        nodes: Option<Vec<u64>>,
        tags: Vec<Tag>,
    },
    Relation { id: u64, members: Vec<Member>, tags: Vec<Tag> },
}

/// The points that make up an element: its position for a node, its
/// geometry for a way, none for a relation.
pub open spec fn locations(e: Element) -> Seq<Point> {
    match e {
        Element::Node { lat, lon, .. } => seq![Point { lat, lon }],
        Element::Way { geometry, .. } => geometry@,
        Element::Relation { .. } => Seq::<Point>::empty(),
    }
}

/// The tags of an element.
pub open spec fn tags_of(e: Element) -> Seq<Tag> {
    match e {
        Element::Node { tags, .. } => tags@,
        Element::Way { tags, .. } => tags@,
        Element::Relation { tags, .. } => tags@,
    }
}

/// The element carries the tag `key=value`.
pub open spec fn has_tag(e: Element, key: Seq<char>, value: Seq<char>) -> bool {
    exists|i: int|
        0 <= i < tags_of(e).len() && (#[trigger] tags_of(e)[i]).key@ == key && tags_of(e)[i].value@
            == value
}

/// No two tags of the element share a key, as in the key/value map of the
/// hazard data.
pub open spec fn unique_keys(e: Element) -> bool {
    forall|i: int, j: int|
        0 <= i < tags_of(e).len() && 0 <= j < tags_of(e).len() && i != j ==> (#[trigger] tags_of(
            e,
        )[i]).key@ != (#[trigger] tags_of(e)[j]).key@
}

/// With unique keys, carrying `key=value` is a map lookup: where some tag
/// has the key, the element carries the tag exactly when that tag's value
/// is `value`.
pub proof fn lemma_has_tag_lookup(e: Element, i: int, key: Seq<char>, value: Seq<char>)
    requires
        unique_keys(e),
        0 <= i < tags_of(e).len(),
        tags_of(e)[i].key@ == key,
    ensures
        has_tag(e, key, value) <==> tags_of(e)[i].value@ == value,
{
    if has_tag(e, key, value) {
        let j = choose|j: int|
            0 <= j < tags_of(e).len() && (#[trigger] tags_of(e)[j]).key@ == key && tags_of(e)[j].value@
                == value;
        assert(i == j);
    }
}

impl Element {
    /// The points that make up the element.
    pub fn location(&self) -> (r: Vec<Point>)
        ensures
            r@ == locations(*self),
    {
        match self {
            Element::Node { lat, lon, .. } => {
                let mut v: Vec<Point> = Vec::new();
                v.push(Point { lat: *lat, lon: *lon });
                assert(v@ =~= locations(*self));
                v
            },
            Element::Way { geometry, .. } => {
                let mut v: Vec<Point> = Vec::new();
                let mut i: usize = 0;
                while i < geometry.len()
                    invariant
                        i <= geometry@.len(),
                        v@ == geometry@.take(i as int),
                    decreases geometry.len() - i,
                {
                    v.push(geometry[i]);
                    i = i + 1;
                    assert(v@ =~= geometry@.take(i as int));
                }
                assert(geometry@.take(geometry@.len() as int) =~= geometry@);
                v
            },
            Element::Relation { .. } => Vec::new(),
        }
    }

    /// The number of points that make up the element.
    pub fn point_count(&self) -> (r: usize)
        ensures
            r == locations(*self).len(),
    {
        match self {
            Element::Node { .. } => 1,
            Element::Way { geometry, .. } => geometry.len(),
            Element::Relation { .. } => 0,
        }
    }

    /// The `i`-th point of the element.
    pub fn point_at(&self, i: usize) -> (r: Point)
        requires
            i < locations(*self).len(),
        ensures
            r == locations(*self)[i as int],
    {
        match self {
            Element::Node { lat, lon, .. } => Point { lat: *lat, lon: *lon },
            Element::Way { geometry, .. } => geometry[i],
            Element::Relation { .. } => Point { lat: 0, lon: 0 },
        }
    }

    pub fn tags(&self) -> (r: &Vec<Tag>)
        ensures
            r@ == tags_of(*self),
    {
        match self {
            Element::Node { tags, .. } => tags,
            Element::Way { tags, .. } => tags,
            Element::Relation { tags, .. } => tags,
        }
    }

    /// Whether the element carries the tag `key=value`.
    pub fn has_tag(&self, key: &str, value: &str) -> (r: bool)
        ensures
            r == has_tag(*self, key@, value@),
    {
        let tags = self.tags();
        let k = key.to_owned();
        let v = value.to_owned();
        let mut i: usize = 0;
        while i < tags.len()
            invariant
                i <= tags@.len(),
                tags@ == tags_of(*self),
                k@ == key@,
                v@ == value@,
                forall|j: int|
                    0 <= j < i ==> !((#[trigger] tags@[j]).key@ == key@ && tags@[j].value@
                        == value@),
            decreases tags.len() - i,
        {
            if tags[i].key == k && tags[i].value == v {
                return true;
            }
            i = i + 1;
        }
        false
    }
}

} // verus!
