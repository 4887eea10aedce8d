use vstd::prelude::*;
use crate::component::{
    all_solid, covered, full_partition, grown_connected, is_component, linked_earlier,
    origins_of, partial_partition,
};
use crate::grid::{adjacent, lemma_index_bounds, lemma_index_injective, Point, Tile, TileMap};
use crate::mesh::Mesh;

verus! {

/// Number of tiles not yet classified.
spec fn count_unvisited(s: Seq<bool>) -> nat
    decreases s.len(),
{
    if s.len() == 0 {
        0
    } else {
        count_unvisited(s.drop_last()) + if s.last() {
            0nat
        } else {
            1nat
        }
    }
}

/// Classifying an unclassified tile leaves one fewer to classify.
proof fn lemma_mark_visited(s: Seq<bool>, i: int)
    requires
        0 <= i < s.len(),
        !s[i],
    ensures
        count_unvisited(s.update(i, true)) + 1 == count_unvisited(s),
    decreases s.len(),
{
    let t = s.update(i, true);
    if i == s.len() - 1 {
        assert(t.drop_last() =~= s.drop_last());
    } else {
        assert(t.drop_last() =~= s.drop_last().update(i, true));
        lemma_mark_visited(s.drop_last(), i);
    }
}

/// The point one step from `p` in direction `d`: `+x, -x, +y, -y, +z, -z`
/// for `d` = 0 to 5.
spec fn step(p: Point, d: int) -> Point {
    Point {
        x: (p.x + if d == 0 { 1int } else if d == 1 { -1int } else { 0int }) as i32,
        y: (p.y + if d == 2 { 1int } else if d == 3 { -1int } else { 0int }) as i32,
        z: (p.z + if d == 4 { 1int } else if d == 5 { -1int } else { 0int }) as i32,
    }
}

/// Every solid tile adjacent to `p` has been classified.
spec fn expanded<T: Tile>(map: TileMap<T>, visited: Seq<bool>, p: Point) -> bool {
    forall|q: Point| #[trigger] adjacent(p, q) && map.solid(q) ==> visited[map.index_of(q)]
}

/// The tile one step from `p` in direction `d`, if the grid has one.
fn neighbor<T>(map: &TileMap<T>, p: &Point, d: usize) -> (r: Option<Point>)
    requires
        map.spec_in_bounds(*p),
        d < 6,
    ensures
        r == if map.spec_in_bounds(step(*p, d as int)) {
            Some(step(*p, d as int))
        } else {
            None::<Point>
        },
{
    let (x, y, z) = (p.x, p.y, p.z);
    if d == 0 {
        if x + 1 < map.width { Some(Point { x: x + 1, y, z }) } else { None }
    } else if d == 1 {
        if x > 0 { Some(Point { x: x - 1, y, z }) } else { None }
    } else if d == 2 {
        if y + 1 < map.height { Some(Point { x, y: y + 1, z }) } else { None }
    } else if d == 3 {
        if y > 0 { Some(Point { x, y: y - 1, z }) } else { None }
    } else if d == 4 {
        if z + 1 < map.depth { Some(Point { x, y, z: z + 1 }) } else { None }
    } else {
        if z > 0 { Some(Point { x, y, z: z - 1 }) } else { None }
    }
}

/// Resumable enumeration of the solid islands of a grid, one mesh per call.
///
/// The cursor sweeps the grid row-major; the first solid tile that no earlier
/// mesh holds seeds a depth-first flood fill (a stack of discovered tiles)
/// over face-adjacent solid tiles, and each tile it reaches is folded into
/// the mesh. Every tile is classified at most once.
pub struct ColliderIterator<'a, T> {
    map: &'a TileMap<T>,
    visited: Vec<bool>,
    cursor: Point,
    emitted: Ghost<Seq<Seq<Point>>>,
}

impl<'a, T: Tile> ColliderIterator<'a, T> {
    /// The grid being traversed.
    pub closed spec fn map(&self) -> TileMap<T> {
        *self.map
    }

    /// Cube origins of the meshes produced so far, in order.
    pub closed spec fn emitted(&self) -> Seq<Seq<Point>> {
        self.emitted@
    }

    /// Row-major position of the cursor; the volume once the sweep is over.
    pub closed spec fn position(&self) -> int {
        self.map.index_of(self.cursor)
    }

    /// Number of cursor steps left before the sweep ends.
    pub open spec fn remaining(&self) -> int {
        self.map().volume() - self.position()
    }

    /// The cursor lies in the grid or just past it; every tile before it has
    /// been classified; a solid tile has been classified exactly when some
    /// produced mesh holds it; and the produced meshes are disjoint islands.
    pub closed spec fn inv(&self) -> bool {
        let m = *self.map;
        let c = self.cursor;
        &&& m.wf()
        &&& self.visited@.len() == m.volume()
        &&& 0 <= self.position() <= m.volume()
        &&& m.spec_in_bounds(c) || (c.x == 0 && c.y == 0 && 0 <= c.z && self.position()
            == m.volume())
        &&& forall|p: Point|
            m.spec_in_bounds(p) && #[trigger] m.index_of(p) < self.position()
                ==> self.visited@[m.index_of(p)]
        &&& forall|p: Point| #[trigger]
            m.solid(p) ==> (self.visited@[m.index_of(p)] <==> covered(self.emitted@, p))
        &&& partial_partition(m, self.emitted@)
    }

    /// A traversal of `map` from its first tile, with nothing produced yet.
    pub fn new(map: &'a TileMap<T>) -> (r: Self)
        requires
            map.wf(),
        ensures
            r.inv(),
            r.map() == *map,
            r.emitted() == Seq::<Seq<Point>>::empty(),
            r.remaining() == map.volume(),
    {
        let n = map.tiles.len();
        let mut visited: Vec<bool> = Vec::new();
        let mut i: usize = 0;
        while i < n
            invariant
                i <= n,
                visited@.len() == i,
                forall|j: int| 0 <= j < i ==> !(#[trigger] visited@[j]),
            decreases n - i,
        {
            visited.push(false);
            i += 1;
        }
        let r = ColliderIterator {
            map,
            visited,
            cursor: Point { x: 0, y: 0, z: 0 },
            emitted: Ghost(Seq::empty()),
        };
        proof {
            let (w, h, d) = (map.width as int, map.height as int, map.depth as int);
            if !map.spec_in_bounds(r.cursor) {
                assert(w * h * d == 0) by (nonlinear_arith)
                    requires
                        w == 0 || h == 0 || d == 0,
                ;
            }
            assert(r.position() == 0);
            assert forall|p: Point| #[trigger] map.solid(p) implies (r.visited@[map.index_of(p)]
                <==> covered(r.emitted@, p)) by {
                lemma_index_bounds(w, h, d, p.x as int, p.y as int, p.z as int);
            }
        }
        r
    }

    /// Classifies the tile under the cursor and moves the cursor one step
    /// row-major; false once it has left the grid.
    fn advance_cursor(&mut self) -> (r: bool)
        requires
            old(self).inv(),
            old(self).map().spec_in_bounds(old(self).cursor),
            old(self).map().solid(old(self).cursor) ==> covered(
                old(self).emitted(),
                old(self).cursor,
            ),
        ensures
            final(self).inv(),
            final(self).map == old(self).map,
            final(self).emitted == old(self).emitted,
            final(self).position() == old(self).position() + 1,
            final(self).visited@ == old(self).visited@.update(old(self).position(), true),
            r == final(self).map().spec_in_bounds(final(self).cursor),
    {
        let ghost m = *self.map;
        let ghost c = self.cursor;
        let ghost (w, h, d) = (m.width as int, m.height as int, m.depth as int);
        let i = self.map.linear_index(&self.cursor);
        self.visited.set(i, true);
        proof {
            lemma_index_bounds(w, h, d, c.x as int, c.y as int, c.z as int);
            assert((c.y + 1) * w == c.y * w + w && (c.z + 1) * (w * h) == c.z * (w * h) + w * h
                && (h - 1) * w == h * w - w && w * h == h * w && d * (w * h) == w * h * d)
                by (nonlinear_arith);
        }
        let more;
        if self.cursor.x + 1 < self.map.width {
            self.cursor.x = self.cursor.x + 1;
            more = true;
        } else {
            self.cursor.x = 0;
            if self.cursor.y + 1 < self.map.height {
                self.cursor.y = self.cursor.y + 1;
                more = true;
            } else {
                self.cursor.y = 0;
                self.cursor.z = self.cursor.z + 1;
                more = self.cursor.z < self.map.depth;
            }
        }
        proof {
            assert(self.position() == old(self).position() + 1);
            assert forall|p: Point| #[trigger] m.solid(p) implies (self.visited@[m.index_of(p)]
                <==> covered(self.emitted@, p)) by {
                lemma_index_bounds(w, h, d, p.x as int, p.y as int, p.z as int);
                if m.index_of(p) == i {
                    lemma_index_injective(w, h, d, p, c);
                }
            }
        }
        more
    }

    /// Once the cursor has left the grid every solid tile lies in a mesh.
    proof fn lemma_exhausted(&self)
        requires
            self.inv(),
            !self.map().spec_in_bounds(self.cursor),
        ensures
            self.remaining() == 0,
            forall|p: Point| #[trigger] self.map().solid(p) ==> covered(self.emitted(), p),
    {
        let m = *self.map;
        assert forall|p: Point| #[trigger] m.solid(p) implies covered(self.emitted@, p) by {
            lemma_index_bounds(
                m.width as int,
                m.height as int,
                m.depth as int,
                p.x as int,
                p.y as int,
                p.z as int,
            );
        }
    }

    /// The state of a flood fill from `seed` that has so far gathered `comp`,
    /// with `frontier` still to be expanded.
    spec fn filling(&self, comp: Seq<Point>, frontier: Seq<Point>, seed: Point) -> bool {
        let m = *self.map;
        &&& m.wf()
        &&& self.visited@.len() == m.volume()
        &&& self.cursor == seed
        &&& m.spec_in_bounds(seed)
        &&& forall|p: Point|
            m.spec_in_bounds(p) && #[trigger] m.index_of(p) < self.position()
                ==> self.visited@[m.index_of(p)]
        &&& partial_partition(m, self.emitted@)
        &&& comp.len() >= 1
        &&& comp[0] == seed
        &&& comp.no_duplicates()
        &&& all_solid(m, comp)
        &&& grown_connected(comp)
        &&& forall|p: Point| #[trigger]
            m.solid(p) ==> (self.visited@[m.index_of(p)] <==> (covered(self.emitted@, p)
                || comp.contains(p)))
        &&& forall|p: Point| #[trigger] comp.contains(p) ==> !covered(self.emitted@, p)
        &&& forall|k: int| 0 <= k < frontier.len() ==> comp.contains(#[trigger] frontier[k])
    }

    /// Folding a new solid neighbor `q` of `t` keeps the flood fill's state.
    proof fn lemma_fill_step(
        before: Self,
        after: Self,
        comp: Seq<Point>,
        frontier: Seq<Point>,
        seed: Point,
        t: Point,
        q: Point,
    )
        requires
            before.filling(comp, frontier, seed),
            comp.contains(t),
            adjacent(t, q),
            before.map().solid(q),
            !before.visited@[before.map().index_of(q)],
            after.map == before.map,
            after.emitted == before.emitted,
            after.cursor == before.cursor,
            after.visited@ == before.visited@.update(before.map().index_of(q), true),
        ensures
            after.filling(comp.push(q), frontier.push(q), seed),
    {
        let m = *before.map;
        let (w, h, d) = (m.width as int, m.height as int, m.depth as int);
        let comp2 = comp.push(q);
        let fr2 = frontier.push(q);
        lemma_index_bounds(w, h, d, q.x as int, q.y as int, q.z as int);
        assert(!comp.contains(q));
        let j = choose|j: int| 0 <= j < comp.len() && comp[j] == t;
        assert(linked_earlier(comp2, comp.len() as int)) by {
            assert(adjacent(comp2[j], comp2[comp.len() as int]));
        }
        assert forall|i: int| 0 < i < comp2.len() implies #[trigger] linked_earlier(comp2, i) by {
            if i < comp.len() {
                assert(linked_earlier(comp, i));
                let k = choose|k: int| 0 <= k < i && adjacent(comp[k], comp[i]);
                assert(adjacent(comp2[k], comp2[i]));
            }
        }
        assert forall|p: Point| #[trigger] m.solid(p) implies (after.visited@[m.index_of(p)]
            <==> (covered(after.emitted@, p) || comp2.contains(p))) by {
            lemma_index_bounds(w, h, d, p.x as int, p.y as int, p.z as int);
            if p != q {
                if m.index_of(p) == m.index_of(q) {
                    lemma_index_injective(w, h, d, p, q);
                }
                assert(after.visited@[m.index_of(p)] == before.visited@[m.index_of(p)]);
                assert(comp2.contains(p) <==> comp.contains(p)) by {
                    if comp2.contains(p) {
                        let k = choose|k: int| 0 <= k < comp2.len() && comp2[k] == p;
                        assert(comp[k] == p);
                    }
                    if comp.contains(p) {
                        let k = choose|k: int| 0 <= k < comp.len() && comp[k] == p;
                        assert(comp2[k] == p);
                    }
                }
            } else {
                assert(comp2[comp.len() as int] == q);
            }
        }
        assert forall|p: Point| #[trigger] comp2.contains(p) implies !covered(after.emitted@, p) by {
            let k = choose|k: int| 0 <= k < comp2.len() && comp2[k] == p;
            if k < comp.len() {
                assert(comp.contains(p));
            }
        }
        assert forall|k: int| 0 <= k < fr2.len() implies comp2.contains(#[trigger] fr2[k]) by {
            if k < frontier.len() {
                assert(comp.contains(frontier[k]));
                let i = choose|i: int| 0 <= i < comp.len() && comp[i] == frontier[k];
                assert(comp2[i] == fr2[k]);
            } else {
                assert(comp2[comp.len() as int] == fr2[k]);
            }
        }
        assert(forall|i: int| 0 <= i < comp2.len() ==> m.solid(#[trigger] comp2[i]));
        assert(comp2[0] == seed);
    }

    /// A flood fill whose frontier has emptied has gathered a whole island.
    proof fn lemma_fill_done(&self, comp: Seq<Point>, seed: Point)
        requires
            self.filling(comp, Seq::empty(), seed),
            forall|p: Point| #[trigger] comp.contains(p) ==> expanded(*self.map, self.visited@, p),
        ensures
            is_component(*self.map, comp),
    {
        let m = *self.map;
        assert forall|p: Point, q: Point|
            #![trigger comp.contains(p), adjacent(p, q)]
            comp.contains(p) && m.solid(q) && adjacent(p, q) implies comp.contains(q) by {
            assert(expanded(m, self.visited@, p));
            assert(self.visited@[m.index_of(q)]);
            if covered(self.emitted@, q) {
                let i = choose|i: int| 0 <= i < self.emitted@.len() && #[trigger] self.emitted@[i].contains(q);
                let part = self.emitted@[i];
                assert(is_component(m, part));
                assert(adjacent(q, p));
                let k = choose|k: int| 0 <= k < comp.len() && comp[k] == p;
                assert(m.solid(comp[k]));
                assert(part.contains(p));
                assert(covered(self.emitted@, p));
            }
        }
    }

    /// Recording the finished island keeps the traversal's invariant.
    proof fn lemma_emit(start: Self, before: Self, after: Self, comp: Seq<Point>, seed: Point)
        requires
            start.inv(),
            start.cursor == seed,
            start.map().solid(seed),
            !start.visited@[start.map().index_of(seed)],
            before.filling(comp, Seq::empty(), seed),
            is_component(*before.map, comp),
            before.map == start.map,
            before.emitted == start.emitted,
            after.map == before.map,
            after.visited == before.visited,
            after.cursor == before.cursor,
            after.emitted@ == start.emitted@.push(comp),
        ensures
            after.inv(),
            !covered(start.emitted@, seed),
            forall|p: Point|
                start.map().solid(p) && !covered(start.emitted@, p) ==> start.map().index_of(seed)
                    <= #[trigger] start.map().index_of(p),
    {
        let m = *after.map;
        let (w, h, d) = (m.width as int, m.height as int, m.depth as int);
        let old_parts = start.emitted@;
        let parts = after.emitted@;
        lemma_index_bounds(w, h, d, seed.x as int, seed.y as int, seed.z as int);
        assert forall|p: Point| #[trigger] m.solid(p) implies (after.visited@[m.index_of(p)]
            <==> covered(parts, p)) by {
            if covered(parts, p) {
                let i = choose|i: int| 0 <= i < parts.len() && #[trigger] parts[i].contains(p);
                if i < old_parts.len() {
                    assert(old_parts[i].contains(p));
                }
            }
            if covered(old_parts, p) {
                let i = choose|i: int| 0 <= i < old_parts.len() && #[trigger] old_parts[i].contains(p);
                assert(parts[i].contains(p));
            }
            if comp.contains(p) {
                assert(parts[old_parts.len() as int].contains(p));
            }
        }
        assert forall|i: int| 0 <= i < parts.len() implies is_component(m, #[trigger] parts[i]) by {
            if i < old_parts.len() {
                assert(parts[i] == old_parts[i]);
            }
        }
        assert forall|i: int, j: int, p: Point|
            0 <= i < j < parts.len() && #[trigger] parts[i].contains(p) implies !(#[trigger] parts[j].contains(p)) by {
            if j == old_parts.len() {
                assert(old_parts[i].contains(p));
                assert(covered(old_parts, p));
            } else {
                assert(old_parts[i].contains(p));
            }
        }
        assert forall|p: Point|
            m.solid(p) && !covered(old_parts, p) implies m.index_of(seed) <= #[trigger] m.index_of(p) by {
            if m.index_of(p) < m.index_of(seed) {
                assert(start.visited@[m.index_of(p)]);
            }
        }
    }

    /// Produces the mesh of the next island: the one holding the first solid
    /// tile, row-major, that no earlier mesh holds. `None` once every solid
    /// tile lies in a produced mesh, and from then on.
    pub fn next(&mut self) -> (r: Option<Mesh>)
        requires
            old(self).inv(),
        ensures
            final(self).inv(),
            final(self).map() == old(self).map(),
            partial_partition(final(self).map(), final(self).emitted()),
            0 <= final(self).remaining() <= final(self).map().volume(),
            r.is_none() <==> forall|p: Point| #[trigger]
                old(self).map().solid(p) ==> covered(old(self).emitted(), p),
            match r {
                None => {
                    &&& final(self).emitted() == old(self).emitted()
                    &&& final(self).remaining() == 0
                    &&& full_partition(final(self).map(), final(self).emitted())
                },
                Some(mesh) => {
                    let seed = mesh.spec_origins()[0];
                    let m = old(self).map();
                    &&& mesh.wf()
                    &&& final(self).emitted() == old(self).emitted().push(mesh.spec_origins())
                    &&& is_component(m, mesh.spec_origins())
                    &&& !covered(old(self).emitted(), seed)
                    &&& forall|p: Point|
                        m.solid(p) && !covered(old(self).emitted(), p) ==> m.index_of(seed)
                            <= #[trigger] m.index_of(p)
                    &&& final(self).remaining() < old(self).remaining()
                },
            },
    {
        let ghost m = *self.map;
        let mut more = self.map.in_bounds(&self.cursor);
        let mut found = false;
        while more && !found
            invariant
                self.inv(),
                self.map == old(self).map,
                self.emitted == old(self).emitted,
                self.position() >= old(self).position(),
                m == *self.map,
                more == m.spec_in_bounds(self.cursor),
                found ==> more && !self.visited@[m.index_of(self.cursor)] && m.solid(self.cursor),
            decreases self.remaining(), if found { 0int } else { 1int },
        {
            let i = self.map.linear_index(&self.cursor);
            if !self.visited[i] && self.map.tile_at(&self.cursor).collides() {
                found = true;
            } else {
                more = self.advance_cursor();
            }
        }
        if !found {
            proof {
                self.lemma_exhausted();
            }
            return None;
        }
        let seed = self.cursor;
        let ghost start = *self;
        let si = self.map.linear_index(&seed);
        proof {
            lemma_mark_visited(self.visited@, si as int);
        }
        self.visited.set(si, true);
        let mut mesh = Mesh::new();
        mesh.add_cube(seed);
        let mut frontier: Vec<Point> = Vec::new();
        frontier.push(seed);
        proof {
            let (w, h, d) = (m.width as int, m.height as int, m.depth as int);
            let comp = mesh.spec_origins();
            assert(comp =~= seq![seed]);
            assert(comp[0] == seed);
            assert forall|p: Point| #[trigger] m.solid(p) implies (self.visited@[m.index_of(p)]
                <==> (covered(self.emitted@, p) || comp.contains(p))) by {
                lemma_index_bounds(w, h, d, p.x as int, p.y as int, p.z as int);
                if m.index_of(p) == si {
                    lemma_index_injective(w, h, d, p, seed);
                }
                if comp.contains(p) {
                    assert(p == comp[0]);
                }
            }
            assert forall|p: Point| #[trigger] comp.contains(p) implies !covered(self.emitted@, p) by {
                assert(p == comp[0]);
            }
        }
        while frontier.len() > 0
            invariant
                self.map == old(self).map,
                self.emitted == old(self).emitted,
                self.filling(mesh.spec_origins(), frontier@, seed),
                mesh.wf(),
                m == *self.map,
                forall|p: Point| #[trigger]
                    mesh.spec_origins().contains(p) && !frontier@.contains(p) ==> expanded(
                        m,
                        self.visited@,
                        p,
                    ),
            decreases count_unvisited(self.visited@), frontier.len(),
        {
            let ghost fr0 = frontier@;
            let t = frontier.pop().unwrap();
            let ghost count0 = count_unvisited(self.visited@);
            let ghost len0 = frontier.len();
            proof {
                assert(fr0 =~= frontier@.push(t));
                assert(fr0[fr0.len() - 1] == t);
                assert(mesh.spec_origins().contains(t));
                let comp = mesh.spec_origins();
                assert forall|p: Point| #[trigger]
                    comp.contains(p) && !frontier@.contains(p) && p != t implies expanded(
                    m,
                    self.visited@,
                    p,
                ) by {
                    if fr0.contains(p) {
                        let k = choose|k: int| 0 <= k < fr0.len() && fr0[k] == p;
                        assert(frontier@[k] == p);
                    }
                }
            }
            let mut dir: usize = 0;
            while dir < 6
                invariant
                    self.map == old(self).map,
                    self.emitted == old(self).emitted,
                    self.filling(mesh.spec_origins(), frontier@, seed),
                    mesh.wf(),
                    m == *self.map,
                    mesh.spec_origins().contains(t),
                    m.spec_in_bounds(t),
                    dir <= 6,
                    forall|p: Point| #[trigger]
                        mesh.spec_origins().contains(p) && !frontier@.contains(p) && p != t
                            ==> expanded(m, self.visited@, p),
                    forall|k: int|
                        0 <= k < dir ==> #[trigger] m.solid(step(t, k)) ==> self.visited@[m.index_of(
                            step(t, k),
                        )],
                    frontier.len() >= len0,
                    count_unvisited(self.visited@) + frontier.len() == count0 + len0,
                decreases 6 - dir,
            {
                if let Some(q) = neighbor(self.map, &t, dir) {
                    let qi = self.map.linear_index(&q);
                    if !self.visited[qi] && self.map.tile_at(&q).collides() {
                        let ghost comp = mesh.spec_origins();
                        let ghost before = *self;
                        let ghost fr = frontier@;
                        proof {
                            lemma_mark_visited(self.visited@, qi as int);
                        }
                        self.visited.set(qi, true);
                        mesh.add_cube(q);
                        frontier.push(q);
                        proof {
                            Self::lemma_fill_step(before, *self, comp, fr, seed, t, q);
                            let comp2 = mesh.spec_origins();
                            let (w, h, d) = (m.width as int, m.height as int, m.depth as int);
                            assert(comp2.contains(t)) by {
                                let k = choose|k: int| 0 <= k < comp.len() && comp[k] == t;
                                assert(comp2[k] == t);
                            }
                            assert forall|p: Point| #[trigger]
                                comp2.contains(p) && !frontier@.contains(p) && p != t implies expanded(
                                m,
                                self.visited@,
                                p,
                            ) by {
                                assert(!fr.contains(p)) by {
                                    if fr.contains(p) {
                                        let k = choose|k: int| 0 <= k < fr.len() && fr[k] == p;
                                        assert(frontier@[k] == p);
                                    }
                                }
                                assert(p != q) by {
                                    assert(frontier@[fr.len() as int] == q);
                                }
                                assert(comp.contains(p)) by {
                                    let k = choose|k: int| 0 <= k < comp2.len() && comp2[k] == p;
                                    assert(comp[k] == p);
                                }
                                assert(expanded(m, before.visited@, p));
                                assert forall|r: Point| #[trigger]
                                    adjacent(p, r) && m.solid(r) implies self.visited@[m.index_of(r)] by {
                                    lemma_index_bounds(w, h, d, r.x as int, r.y as int, r.z as int);
                                    assert(before.visited@[m.index_of(r)]);
                                }
                            }
                            assert forall|k: int|
                                0 <= k < dir + 1 && #[trigger] m.solid(step(t, k)) implies self.visited@[m.index_of(
                                step(t, k),
                            )] by {
                                let r = step(t, k);
                                lemma_index_bounds(w, h, d, r.x as int, r.y as int, r.z as int);
                                if k < dir {
                                    assert(before.visited@[m.index_of(r)]);
                                }
                            }
                        }
                    }
                }
                dir += 1;
            }
            proof {
                assert forall|q: Point| #[trigger] adjacent(t, q) && m.solid(q) implies self.visited@[m.index_of(q)] by {
                    let k = if q.x == t.x + 1 { 0int } else if q.x == t.x - 1 { 1int } else if q.y == t.y + 1 { 2int } else if q.y == t.y - 1 { 3int } else if q.z == t.z + 1 { 4int } else { 5int };
                    assert(q == step(t, k));
                    assert(m.solid(step(t, k)));
                }
                assert(expanded(m, self.visited@, t));
            }
        }
        let ghost comp = mesh.spec_origins();
        proof {
            self.lemma_fill_done(comp, seed);
        }
        let ghost filled = *self;
        self.emitted = Ghost(self.emitted@.push(comp));
        proof {
            Self::lemma_emit(start, filled, *self, comp, seed);
            assert(old(self).map().solid(seed));
        }
        self.advance_cursor();
        Some(mesh)
    }
}

impl<T: Tile> TileMap<T> {
    /// A traversal of this grid's islands from its first tile.
    pub fn colliders(&self) -> (r: ColliderIterator<'_, T>)
        requires
            self.wf(),
        ensures
            r.inv(),
            r.map() == *self,
            r.emitted() == Seq::<Seq<Point>>::empty(),
            r.remaining() == self.volume(),
    {
        ColliderIterator::new(self)
    }

    /// Runs a traversal to its end and returns every mesh it produced: one per
    /// island, at most one per tile, covering each solid tile exactly once.
    pub fn meshes(&self) -> (r: Vec<Mesh>)
        requires
            self.wf(),
        ensures
            full_partition(*self, origins_of(r@)),
            forall|i: int| 0 <= i < r@.len() ==> (#[trigger] r@[i]).wf(),
            r@.len() <= self.volume(),
    {
        let mut it = self.colliders();
        let mut out: Vec<Mesh> = Vec::new();
        let mut done = false;
        while !done
            invariant
                it.inv(),
                it.map() == *self,
                origins_of(out@) == it.emitted(),
                forall|i: int| 0 <= i < out@.len() ==> (#[trigger] out@[i]).wf(),
                0 <= it.remaining(),
                out@.len() + it.remaining() <= self.volume(),
                done ==> full_partition(*self, it.emitted()),
            decreases it.remaining(), if done { 0int } else { 1int },
        {
            let ghost before = out@;
            match it.next() {
                Some(m) => {
                    out.push(m);
                    proof {
                        assert(origins_of(out@) =~= origins_of(before).push(m.spec_origins()));
                    }
                },
                None => {
                    done = true;
                },
            }
        }
        out
    }
}

} // verus!
