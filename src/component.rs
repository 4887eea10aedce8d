use vstd::prelude::*;
use crate::grid::{adjacent, Point, Tile, TileMap};
use crate::mesh::Mesh;

verus! {

/// Every point of `s` is a solid tile of `map`.
pub open spec fn all_solid<T: Tile>(map: TileMap<T>, s: Seq<Point>) -> bool {
    forall|i: int| 0 <= i < s.len() ==> map.solid(#[trigger] s[i])
}

/// `s[i]` is adjacent to some point listed before it.
pub open spec fn linked_earlier(s: Seq<Point>, i: int) -> bool {
    exists|j: int| 0 <= j < i && #[trigger] adjacent(s[j], s[i])
}

/// `s` can be grown from its first point one adjacent point at a time, so the
/// points of `s` are face-connected.
pub open spec fn grown_connected(s: Seq<Point>) -> bool {
    forall|i: int| 0 < i < s.len() ==> #[trigger] linked_earlier(s, i)
}

/// No solid tile adjacent to a point of `s` is missing from `s`.
pub open spec fn closed<T: Tile>(map: TileMap<T>, s: Seq<Point>) -> bool {
    forall|p: Point, q: Point|
        #![trigger s.contains(p), adjacent(p, q)]
        s.contains(p) && map.solid(q) && adjacent(p, q) ==> s.contains(q)
}

/// `s` lists, once each, the tiles of one maximal face-connected group of
/// solid tiles.
pub open spec fn is_component<T: Tile>(map: TileMap<T>, s: Seq<Point>) -> bool {
    &&& s.len() > 0
    &&& s.no_duplicates()
    &&& all_solid(map, s)
    &&& grown_connected(s)
    &&& closed(map, s)
}

/// `p` lies in one of `parts`.
pub open spec fn covered(parts: Seq<Seq<Point>>, p: Point) -> bool {
    exists|i: int| 0 <= i < parts.len() && #[trigger] parts[i].contains(p)
}

/// No point lies in two of `parts`.
pub open spec fn disjoint(parts: Seq<Seq<Point>>) -> bool {
    forall|i: int, j: int, p: Point|
        0 <= i < j < parts.len() && #[trigger] parts[i].contains(p) ==> !(#[trigger] parts[j].contains(p))
}

/// Each of `parts` is a component and no two share a tile.
pub open spec fn partial_partition<T: Tile>(map: TileMap<T>, parts: Seq<Seq<Point>>) -> bool {
    &&& forall|i: int| 0 <= i < parts.len() ==> is_component(map, #[trigger] parts[i])
    &&& disjoint(parts)
}

/// `parts` splits the solid tiles of `map` into its components.
pub open spec fn full_partition<T: Tile>(map: TileMap<T>, parts: Seq<Seq<Point>>) -> bool {
    &&& partial_partition(map, parts)
    &&& forall|p: Point| #[trigger] map.solid(p) ==> covered(parts, p)
}

/// The cube origins of each mesh.
pub open spec fn origins_of(meshes: Seq<Mesh>) -> Seq<Seq<Point>> {
    meshes.map_values(|m: Mesh| m.spec_origins())
}

proof fn lemma_reaches_first<T: Tile>(map: TileMap<T>, s: Seq<Point>, t: Seq<Point>, k: int)
    requires
        is_component(map, s),
        closed(map, t),
        0 <= k < s.len(),
        t.contains(s[k]),
    ensures
        t.contains(s[0]),
    decreases k,
{
    if k > 0 {
        assert(linked_earlier(s, k));
        let j = choose|j: int| 0 <= j < k && adjacent(s[j], s[k]);
        assert(adjacent(s[k], s[j]));
        assert(map.solid(s[j]));
        lemma_reaches_first(map, s, t, j);
    }
}

proof fn lemma_reached_from_first<T: Tile>(map: TileMap<T>, s: Seq<Point>, t: Seq<Point>, k: int)
    requires
        is_component(map, s),
        closed(map, t),
        0 <= k < s.len(),
        t.contains(s[0]),
    ensures
        t.contains(s[k]),
    decreases k,
{
    if k > 0 {
        assert(linked_earlier(s, k));
        let j = choose|j: int| 0 <= j < k && adjacent(s[j], s[k]);
        lemma_reached_from_first(map, s, t, j);
        assert(map.solid(s[k]));
    }
}

/// Two components that share a tile hold the same tiles: a component is
/// determined by any one of its tiles.
pub proof fn lemma_component_determined<T: Tile>(
    map: TileMap<T>,
    s: Seq<Point>,
    t: Seq<Point>,
    p: Point,
)
    requires
        is_component(map, s),
        is_component(map, t),
        s.contains(p),
        t.contains(p),
    ensures
        s.to_set() == t.to_set(),
{
    let i = choose|i: int| 0 <= i < s.len() && s[i] == p;
    let j = choose|j: int| 0 <= j < t.len() && t[j] == p;
    lemma_reaches_first(map, s, t, i);
    lemma_reaches_first(map, t, s, j);
    assert forall|q: Point| s.contains(q) implies t.contains(q) by {
        let k = choose|k: int| 0 <= k < s.len() && s[k] == q;
        lemma_reached_from_first(map, s, t, k);
    }
    assert forall|q: Point| t.contains(q) implies s.contains(q) by {
        let k = choose|k: int| 0 <= k < t.len() && t[k] == q;
        lemma_reached_from_first(map, t, s, k);
    }
    assert(s.to_set() =~= t.to_set());
}

/// Some part of `parts` holds exactly the tiles of `s`.
pub open spec fn matched(s: Seq<Point>, parts: Seq<Seq<Point>>) -> bool {
    exists|j: int| 0 <= j < parts.len() && s.to_set() == #[trigger] parts[j].to_set()
}

/// Two runs over the same grid group the solid tiles alike: every mesh of
/// one run holds exactly the tiles of some mesh of the other.
pub proof fn lemma_partition_determined<T: Tile>(map: TileMap<T>, a: Seq<Mesh>, b: Seq<Mesh>)
    requires
        full_partition(map, origins_of(a)),
        full_partition(map, origins_of(b)),
    ensures
        forall|i: int| 0 <= i < a.len() ==> #[trigger] matched(origins_of(a)[i], origins_of(b)),
        forall|j: int| 0 <= j < b.len() ==> #[trigger] matched(origins_of(b)[j], origins_of(a)),
{
    assert forall|i: int| 0 <= i < a.len() implies #[trigger] matched(origins_of(a)[i], origins_of(b)) by {
        lemma_matching_part(map, origins_of(a), origins_of(b), i);
    }
    assert forall|j: int| 0 <= j < b.len() implies #[trigger] matched(origins_of(b)[j], origins_of(a)) by {
        lemma_matching_part(map, origins_of(b), origins_of(a), j);
    }
}

proof fn lemma_matching_part<T: Tile>(map: TileMap<T>, a: Seq<Seq<Point>>, b: Seq<Seq<Point>>, i: int)
    requires
        full_partition(map, a),
        full_partition(map, b),
        0 <= i < a.len(),
    ensures
        matched(a[i], b),
{
    let s = a[i];
    assert(is_component(map, s));
    let p = s[0];
    assert(s.contains(p));
    assert(map.solid(p));
    assert(covered(b, p));
    let j = choose|j: int| 0 <= j < b.len() && #[trigger] b[j].contains(p);
    assert(is_component(map, b[j]));
    lemma_component_determined(map, s, b[j], p);
}

} // verus!
