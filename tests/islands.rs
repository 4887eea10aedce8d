use std::collections::BTreeSet;
use tilemap::colliders::ColliderIterator;
use tilemap::grid::{Point, Tile, TileMap};
use tilemap::mesh::Mesh;

#[derive(Clone, Copy, Debug)]
struct Block(bool);

impl Tile for Block {
    fn spec_collides(&self) -> bool {
        self.0
    }

    fn collides(&self) -> bool {
        self.0
    }
}

fn p(x: i32, y: i32, z: i32) -> Point {
    Point { x, y, z }
}

/// Builds a grid from a row-major pattern where `#` is solid.
fn grid(w: i32, h: i32, d: i32, pattern: &str) -> TileMap<Block> {
    let tiles: Vec<Block> = pattern.chars().filter(|c| !c.is_whitespace()).map(|c| Block(c == '#')).collect();
    TileMap::new(w, h, d, tiles).expect("well-formed grid")
}

fn origin_set(m: &Mesh) -> BTreeSet<(i32, i32, i32)> {
    m.origins().iter().map(|q| (q.x, q.y, q.z)).collect()
}

fn drain(it: &mut ColliderIterator<'_, Block>) -> Vec<Mesh> {
    let mut out = Vec::new();
    while let Some(m) = it.next() {
        out.push(m);
    }
    out
}

#[test]
fn it_works() {
    assert_eq!(2 + 2, 4);
}

#[test]
fn empty_grid_is_exhausted_at_once() {
    let map: TileMap<Block> = TileMap::new(0, 0, 0, Vec::new()).unwrap();
    let mut it = map.colliders();
    assert!(it.next().is_none());
    assert!(it.next().is_none());
    assert!(map.meshes().is_empty());
}

#[test]
fn single_colliding_tile() {
    let map = grid(1, 1, 1, "#");
    let mut it = map.colliders();
    let m = it.next().expect("one mesh");
    assert_eq!(m.vertices().len(), 8);
    assert_eq!(m.index_buffer().len(), 36);
    assert_eq!(m.origins(), &vec![p(0, 0, 0)]);
    assert!(it.next().is_none());
}

#[test]
fn two_disconnected_tiles() {
    let map = grid(3, 1, 1, "#.#");
    let meshes = map.meshes();
    assert_eq!(meshes.len(), 2);
    assert_eq!(meshes[0].origins(), &vec![p(0, 0, 0)]);
    assert_eq!(meshes[1].origins(), &vec![p(2, 0, 0)]);
    for m in &meshes {
        assert_eq!(m.vertices().len(), 8);
        assert_eq!(m.index_buffer().len(), 36);
    }
}

#[test]
fn two_adjacent_tiles_share_a_face() {
    let map = grid(2, 1, 1, "##");
    let meshes = map.meshes();
    assert_eq!(meshes.len(), 1);
    let expected: BTreeSet<(i32, i32, i32)> = [(0, 0, 0), (1, 0, 0)].into_iter().collect();
    assert_eq!(origin_set(&meshes[0]), expected);
    let n = meshes[0].vertices().len();
    assert!(n > 8 && n <= 16);
    assert_eq!(n, 12);
    assert_eq!(meshes[0].index_buffer().len(), 72);
}

#[test]
fn all_non_colliding_grid() {
    let map = grid(2, 2, 2, "........");
    let mut it = map.colliders();
    assert!(it.next().is_none());
    assert!(map.meshes().is_empty());
}

#[test]
fn coverage_of_solid_tiles() {
    let map = grid(3, 3, 2, "#.# .#. #.. ##. ... ..#");
    let meshes = map.meshes();
    let mut seen = BTreeSet::new();
    let mut total = 0;
    for m in &meshes {
        for q in m.origins() {
            seen.insert((q.x, q.y, q.z));
            total += 1;
        }
    }
    let mut solid = BTreeSet::new();
    for z in 0..2 {
        for y in 0..3 {
            for x in 0..3 {
                if map.tile_at(&p(x, y, z)).collides() {
                    solid.insert((x, y, z));
                }
            }
        }
    }
    assert_eq!(seen, solid);
    assert_eq!(total, solid.len());
}

#[test]
fn islands_are_maximal_and_connected() {
    // an L of four tiles, a lone tile, and a column joined through z
    let map = grid(4, 3, 2, "###. ..#. #... .... .... #...");
    let meshes = map.meshes();
    let sets: Vec<BTreeSet<(i32, i32, i32)>> = meshes.iter().map(origin_set).collect();
    assert_eq!(sets.len(), 2);
    let l: BTreeSet<(i32, i32, i32)> = [(0, 0, 0), (1, 0, 0), (2, 0, 0), (2, 1, 0)].into_iter().collect();
    let col: BTreeSet<(i32, i32, i32)> = [(0, 2, 0), (0, 2, 1)].into_iter().collect();
    assert_eq!(sets[0], l);
    assert_eq!(sets[1], col);
}

#[test]
fn partition_is_the_same_on_every_run() {
    let map = grid(3, 3, 3, "#.# ### .#. ... .#. ... #.. ..# #.#");
    let a: BTreeSet<BTreeSet<(i32, i32, i32)>> = map.meshes().iter().map(origin_set).collect();
    let b: BTreeSet<BTreeSet<(i32, i32, i32)>> = map.meshes().iter().map(origin_set).collect();
    assert_eq!(a, b);
    assert!(!a.is_empty());
}

#[test]
fn index_buffer_entries_are_valid() {
    let map = grid(3, 2, 2, "##. .## #.. .##");
    for m in map.meshes() {
        assert_eq!(m.index_buffer().len() % 3, 0);
        assert_eq!(m.index_buffer().len(), 36 * m.origins().len());
        for &i in m.index_buffer() {
            assert!(i < m.vertices().len());
        }
    }
}

#[test]
fn traversal_ends_within_volume_calls() {
    let map = grid(3, 3, 1, "#.# .#. #.#");
    let mut it = map.colliders();
    let mut calls = 0;
    while it.next().is_some() {
        calls += 1;
        assert!(calls <= 9);
    }
    assert_eq!(calls, 5);
    assert!(it.next().is_none());
}

#[test]
fn first_mesh_holds_first_solid_tile() {
    let map = grid(3, 2, 1, "..# #..");
    let meshes = drain(&mut map.colliders());
    assert_eq!(meshes.len(), 2);
    assert_eq!(meshes[0].origins()[0], p(2, 0, 0));
    assert_eq!(meshes[1].origins()[0], p(0, 1, 0));
}

#[test]
fn tiles_on_every_face_of_the_volume() {
    let map = grid(2, 2, 2, "#..# .##.");
    let meshes = map.meshes();
    assert_eq!(meshes.len(), 4);
}

#[test]
fn malformed_grid_is_rejected() {
    assert!(TileMap::new(2, 2, 2, vec![Block(true); 7]).is_none());
    assert!(TileMap::new(-1, 1, 1, Vec::<Block>::new()).is_none());
    assert!(TileMap::new(2, 0, 3, vec![Block(true); 1]).is_none());
    assert!(TileMap::new(2, 0, 3, Vec::<Block>::new()).is_some());
}

#[test]
fn tile_at_reads_row_major() {
    let map = grid(2, 2, 2, "#... ...#");
    assert!(map.tile_at(&p(0, 0, 0)).collides());
    assert!(!map.tile_at(&p(1, 0, 0)).collides());
    assert!(map.tile_at(&p(1, 1, 1)).collides());
    assert_eq!(map.linear_index(&p(1, 1, 1)), 7);
    assert_eq!(map.linear_index(&p(0, 1, 1)), 6);
    assert!(map.in_bounds(&p(1, 1, 1)));
    assert!(!map.in_bounds(&p(2, 0, 0)));
    assert!(!map.in_bounds(&p(0, -1, 0)));
}

#[test]
fn cube_geometry_is_the_unit_cube() {
    let mut m = Mesh::new();
    assert!(m.vertices().is_empty());
    m.add_cube(p(3, 4, 5));
    let got: BTreeSet<(i32, i32, i32)> = m.vertices().iter().map(|v| (v.x, v.y, v.z)).collect();
    let mut want = BTreeSet::new();
    for dz in 0..2 {
        for dy in 0..2 {
            for dx in 0..2 {
                want.insert((3 + dx, 4 + dy, 5 + dz));
            }
        }
    }
    assert_eq!(got, want);
    // the first triangle lies on the -z face
    let ib = m.index_buffer();
    let vs = m.vertices();
    for k in 0..3 {
        assert_eq!(vs[ib[k]].z, 5);
    }
    assert_eq!(vs[ib[0]], p(3, 4, 5));
    assert_eq!(vs[ib[1]], p(3, 5, 5));
    assert_eq!(vs[ib[2]], p(4, 5, 5));
}

#[test]
fn adjacent_cubes_reuse_shared_corners() {
    let mut m = Mesh::new();
    m.add_cube(p(0, 0, 0));
    m.add_cube(p(0, 0, 1));
    assert_eq!(m.vertices().len(), 12);
    assert_eq!(m.index_buffer().len(), 72);
    let distinct: BTreeSet<(i32, i32, i32)> = m.vertices().iter().map(|v| (v.x, v.y, v.z)).collect();
    assert_eq!(distinct.len(), 12);
}
