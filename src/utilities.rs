use rand::Rng;
use vstd::arithmetic::div_mod::{
    lemma_fundamental_div_mod, lemma_fundamental_div_mod_converse,
    lemma_mod_add_multiples_vanish, lemma_mod_bound, lemma_mod_pos_bound,
};
use vstd::prelude::*;

verus! {

/// Largest side length whose cube of cells can still be indexed with `i32` arithmetic.
pub const MAX_BOUNDS: i32 = 1290;

/// An integer point (or offset) in three dimensions.
#[derive(Clone, Copy, Debug, PartialEq, Eq, Hash, Structural)]
pub struct IVec3 {
    pub x: i32,
    pub y: i32,
    pub z: i32,
}

pub fn ivec3(x: i32, y: i32, z: i32) -> (r: IVec3)
    ensures
        r == (IVec3 { x, y, z }),
{
    IVec3 { x, y, z }
}

impl IVec3 {
    pub fn new(x: i32, y: i32, z: i32) -> (r: IVec3)
        ensures
            r == (IVec3 { x, y, z }),
    {
        IVec3 { x, y, z }
    }

    pub fn from_array(a: [i32; 3]) -> (r: IVec3)
        ensures
            r == (IVec3 { x: a@[0], y: a@[1], z: a@[2] }),
    {
        IVec3 { x: a[0], y: a[1], z: a[2] }
    }
}

/// Number of cells in a cube of side `n`.
pub open spec fn cube(n: int) -> int {
    n * n * n
}

/// Toroidal wrap of one coordinate: `(c + n) mod n`.
pub open spec fn wrap_coord(c: int, n: int) -> int {
    (c + n) % n
}

/// Flat index of the point `(x, y, z)`: `x + y·n + z·n²`.
pub open spec fn index_of(x: int, y: int, z: int, n: int) -> int {
    x + y * n + z * n * n
}

pub open spec fn pos_x(i: int, n: int) -> int {
    (i % (n * n)) % n
}

pub open spec fn pos_y(i: int, n: int) -> int {
    (i % (n * n)) / n
}

pub open spec fn pos_z(i: int, n: int) -> int {
    i / (n * n)
}

/// Every flat index of the cube maps to an in-range point that maps back to it.
pub proof fn lemma_index_round_trip(i: int, n: int)
    requires
        n > 0,
        0 <= i < cube(n),
    ensures
        0 <= pos_x(i, n) < n,
        0 <= pos_y(i, n) < n,
        0 <= pos_z(i, n) < n,
        index_of(pos_x(i, n), pos_y(i, n), pos_z(i, n), n) == i,
{
    let nn = n * n;
    assert(nn > 0) by (nonlinear_arith)
        requires
            n > 0,
            nn == n * n,
    ;
    lemma_fundamental_div_mod(i, nn);
    lemma_mod_pos_bound(i, nn);
    let rem = i % nn;
    let z = i / nn;
    lemma_fundamental_div_mod(rem, n);
    lemma_mod_pos_bound(rem, n);
    let y = rem / n;
    let x = rem % n;
    assert(0 <= y < n) by (nonlinear_arith)
        requires
            rem == n * y + x,
            0 <= x < n,
            0 <= rem < nn,
            nn == n * n,
            n > 0,
    ;
    assert(0 <= z < n) by (nonlinear_arith)
        requires
            i == nn * z + rem,
            0 <= rem < nn,
            0 <= i < n * n * n,
            nn == n * n,
            n > 0,
    ;
    assert(index_of(x, y, z, n) == i) by (nonlinear_arith)
        requires
            i == nn * z + rem,
            rem == n * y + x,
            nn == n * n,
    ;
}

/// Every in-range point maps to a flat index of the cube that maps back to it.
pub proof fn lemma_position_round_trip(x: int, y: int, z: int, n: int)
    requires
        n > 0,
        0 <= x < n,
        0 <= y < n,
        0 <= z < n,
    ensures
        0 <= index_of(x, y, z, n) < cube(n),
        pos_x(index_of(x, y, z, n), n) == x,
        pos_y(index_of(x, y, z, n), n) == y,
        pos_z(index_of(x, y, z, n), n) == z,
{
    let nn = n * n;
    let i = index_of(x, y, z, n);
    let rem = x + y * n;
    assert(0 <= rem < nn && i == z * nn + rem && rem == y * n + x && i < nn * n)
        by (nonlinear_arith)
        requires
            0 <= x < n,
            0 <= y < n,
            0 <= z < n,
            nn == n * n,
            i == x + y * n + z * n * n,
            rem == x + y * n,
    ;
    assert(cube(n) == nn * n) by (nonlinear_arith)
        requires
            nn == n * n,
    ;
    lemma_fundamental_div_mod_converse(i, nn, z, rem);
    lemma_fundamental_div_mod_converse(rem, n, y, x);
}

/// Distinct in-range points have distinct flat indices.
pub proof fn lemma_index_injective(a: (int, int, int), b: (int, int, int), n: int)
    requires
        n > 0,
        0 <= a.0 < n,
        0 <= a.1 < n,
        0 <= a.2 < n,
        0 <= b.0 < n,
        0 <= b.1 < n,
        0 <= b.2 < n,
        index_of(a.0, a.1, a.2, n) == index_of(b.0, b.1, b.2, n),
    ensures
        a == b,
{
    lemma_position_round_trip(a.0, a.1, a.2, n);
    lemma_position_round_trip(b.0, b.1, b.2, n);
}

/// A wrapped coordinate lies in `[0, n)` and equals the Euclidean remainder.
pub proof fn lemma_wrap_coord(c: int, n: int)
    requires
        n > 0,
    ensures
        0 <= wrap_coord(c, n) < n,
        wrap_coord(c, n) == c % n,
{
    lemma_mod_bound(c + n, n);
    lemma_mod_add_multiples_vanish(c, n);
}

/// Stepping by `d` from `a` lands on `b` exactly when stepping by `-d` from `b` lands on `a`.
pub proof fn lemma_wrap_mirror(a: int, b: int, d: int, n: int)
    requires
        n > 0,
        0 <= a < n,
        0 <= b < n,
        wrap_coord(a + d, n) == b,
    ensures
        wrap_coord(b - d, n) == a,
{
    let s = a + d + n;
    lemma_fundamental_div_mod(s, n);
    let q = s / n;
    assert(b - d + n == (2 - q) * n + a) by (nonlinear_arith)
        requires
            s == n * q + b,
            s == a + d + n,
    ;
    lemma_fundamental_div_mod_converse(b - d + n, n, 2 - q, a);
}

/// Wrapping is compatible with moving: wrapping first and then stepping and wrapping
/// gives the same coordinate as stepping and wrapping once.
pub proof fn lemma_wrap_step(c: int, d: int, n: int)
    requires
        n > 0,
    ensures
        wrap_coord(wrap_coord(c, n) + d, n) == wrap_coord(c + d, n),
{
    lemma_wrap_coord(c, n);
    lemma_wrap_coord(wrap_coord(c, n) + d, n);
    lemma_wrap_coord(c + d, n);
    lemma_fundamental_div_mod(c, n);
    let q = c / n;
    let r = c % n;
    assert(r + d == (c + d) + (-q) * n) by (nonlinear_arith)
        requires
            c == n * q + r,
    ;
    lemma_fundamental_div_mod(c + d, n);
    lemma_mod_bound(c + d, n);
    let q2 = (c + d) / n;
    let r2 = (c + d) % n;
    assert(r + d == (q2 - q) * n + r2) by (nonlinear_arith)
        requires
            r + d == (c + d) + (-q) * n,
            c + d == n * q2 + r2,
    ;
    lemma_fundamental_div_mod_converse(r + d, n, q2 - q, r2);
}

/// Wrapping a point always lands inside the cube `[0, n)³`; and wrapping a point, stepping
/// by any offset and wrapping again is the same as stepping and wrapping once.
pub proof fn lemma_wrap_laws(p: (int, int, int), offset: (int, int, int), n: int)
    requires
        n > 0,
    ensures
        0 <= wrap_coord(p.0, n) < n,
        0 <= wrap_coord(p.1, n) < n,
        0 <= wrap_coord(p.2, n) < n,
        wrap_coord(wrap_coord(p.0, n) + offset.0, n) == wrap_coord(p.0 + offset.0, n),
        wrap_coord(wrap_coord(p.1, n) + offset.1, n) == wrap_coord(p.1 + offset.1, n),
        wrap_coord(wrap_coord(p.2, n) + offset.2, n) == wrap_coord(p.2 + offset.2, n),
{
    lemma_wrap_coord(p.0, n);
    lemma_wrap_coord(p.1, n);
    lemma_wrap_coord(p.2, n);
    lemma_wrap_step(p.0, offset.0, n);
    lemma_wrap_step(p.1, offset.1, n);
    lemma_wrap_step(p.2, offset.2, n);
}

/// Converting a flat index to a point and back gives the index again, for every index
/// of the cube.
pub proof fn lemma_idx_pos_round_trip(i: int, n: int)
    requires
        n > 0,
        0 <= i < cube(n),
    ensures
        index_of(pos_x(i, n), pos_y(i, n), pos_z(i, n), n) == i,
{
    lemma_index_round_trip(i, n);
}

/// Point of the cube of side `bounds` that has flat index `index`.
pub fn idx_to_pos(index: i32, bounds: i32) -> (r: IVec3)
    requires
        0 < bounds <= MAX_BOUNDS,
        0 <= index,
    ensures
        r.x == pos_x(index as int, bounds as int),
        r.y == pos_y(index as int, bounds as int),
        r.z == pos_z(index as int, bounds as int),
{
    assert(0 < bounds * bounds <= MAX_BOUNDS * MAX_BOUNDS) by (nonlinear_arith)
        requires
            0 < bounds <= MAX_BOUNDS,
    ;
    let area = bounds * bounds;
    let rem = index % area;
    ivec3(rem % bounds, rem / bounds, index / area)
}

/// Flat index of a point with non-negative coordinates: `x + y·bounds + z·bounds²`.
pub fn pos_to_idx(position: IVec3, bounds: i32) -> (r: usize)
    requires
        0 < bounds,
        0 <= position.x,
        0 <= position.y,
        0 <= position.z,
        index_of(position.x as int, position.y as int, position.z as int, bounds as int)
            <= i32::MAX,
    ensures
        r == index_of(position.x as int, position.y as int, position.z as int, bounds as int),
{
    let x = position.x;
    let y = position.y;
    let z = position.z;
    assert(y * bounds <= x + y * bounds + z * bounds * bounds && z * bounds <= z * bounds
        * bounds && 0 <= z * bounds * bounds) by (nonlinear_arith)
        requires
            0 < bounds,
            0 <= x,
            0 <= y,
            0 <= z,
    ;
    (x + (y * bounds) + (z * bounds * bounds)) as usize
}

/// Centre point `(bounds/2, bounds/2, bounds/2)` of the cube.
pub fn get_centre(bounds: i32) -> (r: IVec3)
    requires
        0 <= bounds,
    ensures
        r.x == bounds / 2,
        r.y == bounds / 2,
        r.z == bounds / 2,
{
    let centre: i32 = bounds / 2;
    ivec3(centre, centre, centre)
}

fn wrap_component(c: i32, bounds: i32) -> (r: i32)
    requires
        0 < bounds,
    ensures
        r == wrap_coord(c as int, bounds as int),
        0 <= r < bounds,
{
    proof {
        lemma_wrap_coord(c as int, bounds as int);
    }
    match c.checked_rem_euclid(bounds) {
        Some(r) => r,
        None => 0,
    }
}

/// Toroidal wrap of a point into `[0, bounds)³`, componentwise `(p + bounds) mod bounds`.
pub fn wrap(position: IVec3, bounds: i32) -> (r: IVec3)
    requires
        0 < bounds,
    ensures
        r.x == wrap_coord(position.x as int, bounds as int),
        r.y == wrap_coord(position.y as int, bounds as int),
        r.z == wrap_coord(position.z as int, bounds as int),
        0 <= r.x < bounds,
        0 <= r.y < bounds,
        0 <= r.z < bounds,
{
    ivec3(
        wrap_component(position.x, bounds),
        wrap_component(position.y, bounds),
        wrap_component(position.z, bounds),
    )
}

/// Relies on rand::Rng::gen_range on the thread-local generator (rand::thread_rng):
/// for a non-empty inclusive range it returns a value inside that range.
#[verifier::external_body]
fn random_in_range(low: i32, high: i32) -> (r: i32)
    requires
        low <= high,
    ensures
        low <= r <= high,
{
    rand::thread_rng().gen_range(low..=high)
}

/// Whether `p` lies in the cube of half-width `radius` around `centre`.
pub open spec fn within_radius(p: IVec3, centre: IVec3, radius: int) -> bool {
    &&& centre.x - radius <= p.x <= centre.x + radius
    &&& centre.y - radius <= p.y <= centre.y + radius
    &&& centre.z - radius <= p.z <= centre.z + radius
}

/// `amount` random points, each drawn uniformly from the cube of half-width `radius`
/// around `centre`.
pub fn generate_noise(centre: IVec3, radius: i32, amount: usize) -> (r: Vec<IVec3>)
    requires
        0 <= radius,
        i32::MIN <= centre.x - radius,
        centre.x + radius <= i32::MAX,
        i32::MIN <= centre.y - radius,
        centre.y + radius <= i32::MAX,
        i32::MIN <= centre.z - radius,
        centre.z + radius <= i32::MAX,
    ensures
        r@.len() == amount,
        forall|k: int| 0 <= k < r@.len() ==> within_radius(#[trigger] r@[k], centre, radius as int),
{
    let mut result: Vec<IVec3> = Vec::new();
    let mut k: usize = 0;
    while k < amount
        invariant
            k <= amount,
            result@.len() == k,
            0 <= radius,
            i32::MIN <= centre.x - radius,
            centre.x + radius <= i32::MAX,
            i32::MIN <= centre.y - radius,
            centre.y + radius <= i32::MAX,
            i32::MIN <= centre.z - radius,
            centre.z + radius <= i32::MAX,
            forall|j: int|
                0 <= j < result@.len() ==> within_radius(#[trigger] result@[j], centre, radius as int),
        decreases amount - k,
    {
        let dx = random_in_range(-radius, radius);
        let dy = random_in_range(-radius, radius);
        let dz = random_in_range(-radius, radius);
        result.push(ivec3(centre.x + dx, centre.y + dy, centre.z + dz));
        k += 1;
    }
    result
}

/// Half-width of the default seeding cube.
pub const NOISE_RADIUS: i32 = 10;

/// Number of samples drawn by the default seeding.
pub const NOISE_AMOUNT: usize = 512;

/// Default seeding samples: `NOISE_AMOUNT` points within `NOISE_RADIUS` of `centre`.
pub fn default_noise(centre: IVec3) -> (r: Vec<IVec3>)
    requires
        i32::MIN + NOISE_RADIUS <= centre.x <= i32::MAX - NOISE_RADIUS,
        i32::MIN + NOISE_RADIUS <= centre.y <= i32::MAX - NOISE_RADIUS,
        i32::MIN + NOISE_RADIUS <= centre.z <= i32::MAX - NOISE_RADIUS,
    ensures
        r@.len() == NOISE_AMOUNT,
        forall|k: int|
            0 <= k < r@.len() ==> within_radius(#[trigger] r@[k], centre, NOISE_RADIUS as int),
{
    generate_noise(centre, NOISE_RADIUS, NOISE_AMOUNT)
}

} // verus!
