//! The four-body gravity simulation: moons pull one another one unit per
//! axis per step, velocities move positions, and the total energy and the
//! first step at which an axis comes to rest fall out of the iterated step.

use vstd::prelude::*;

verus! {

/// A point or velocity in integer 3-space.
#[derive(Clone, Copy, Debug, PartialEq, Eq, Structural)]
pub struct Coordinates {
    pub x: i64,
    pub y: i64,
    pub z: i64,
}

impl Default for Coordinates {
    /// The origin.
    fn default() -> (c: Self)
        ensures
            c.x == 0 && c.y == 0 && c.z == 0,
    {
        Self { x: 0, y: 0, z: 0 }
    }
}

impl Coordinates {
    /// The energy a coordinate triple contributes: the sum of the absolute
    /// values of its components.
    pub open spec fn spec_energy(self) -> int {
        vstd::math::abs(self.x as int) + vstd::math::abs(self.y as int) + vstd::math::abs(
            self.z as int,
        ) as int
    }

    /// The sum of the absolute component values.
    pub fn energy(&self) -> (e: i64)
        requires
            self.spec_energy() <= i64::MAX,
        ensures
            e == self.spec_energy(),
    {
        let ax = if self.x < 0 {
            -self.x
        } else {
            self.x
        };
        let ay = if self.y < 0 {
            -self.y
        } else {
            self.y
        };
        let az = if self.z < 0 {
            -self.z
        } else {
            self.z
        };
        ax + ay + az
    }
}

/// A moon: where it is and how it moves.
#[derive(Clone, Copy, Debug, PartialEq, Eq, Structural)]
pub struct Moon {
    pub position: Coordinates,
    pub velocity: Coordinates,
}

/// The pull of the value `b` on the value `a` along one axis: one unit
/// toward `b`, or nothing when they coincide.
pub open spec fn pull(a: int, b: int) -> int {
    if a < b {
        1
    } else if b < a {
        -1
    } else {
        0
    }
}

/// The total pull of the listed values on `a`.
pub open spec fn pull_sum(a: int, others: Seq<int>) -> int
    decreases others.len(),
{
    if others.len() == 0 {
        0
    } else {
        pull_sum(a, others.drop_last()) + pull(a, others.last())
    }
}

/// Each value pulls by at most one unit.
pub proof fn lemma_pull_sum_bound(a: int, others: Seq<int>)
    ensures
        -others.len() <= pull_sum(a, others) <= others.len(),
    decreases others.len(),
{
    if others.len() > 0 {
        lemma_pull_sum_bound(a, others.drop_last());
    }
}

/// The x positions of the listed moons.
pub open spec fn xs_of(moons: Seq<Moon>) -> Seq<int> {
    moons.map(|i: int, m: Moon| m.position.x as int)
}

/// The y positions of the listed moons.
pub open spec fn ys_of(moons: Seq<Moon>) -> Seq<int> {
    moons.map(|i: int, m: Moon| m.position.y as int)
}

/// The z positions of the listed moons.
pub open spec fn zs_of(moons: Seq<Moon>) -> Seq<int> {
    moons.map(|i: int, m: Moon| m.position.z as int)
}

impl Moon {
    /// A moon at rest at the given position.
    pub fn new_static(x: i64, y: i64, z: i64) -> (m: Self)
        ensures
            m.position.x == x && m.position.y == y && m.position.z == z,
            m.velocity.x == 0 && m.velocity.y == 0 && m.velocity.z == 0,
    {
        let pos = Coordinates { x, y, z };
        Self { position: pos, velocity: Coordinates::default() }
    }

    /// This moon with the listed moons' gravity applied to its velocity:
    /// one unit of pull toward each other moon per axis.  The position is
    /// untouched.
    pub fn new_with_gravity(&self, others: &[Moon]) -> (m: Self)
        requires
            i64::MIN <= self.velocity.x + pull_sum(self.position.x as int, xs_of(others@))
                <= i64::MAX,
            i64::MIN <= self.velocity.y + pull_sum(self.position.y as int, ys_of(others@))
                <= i64::MAX,
            i64::MIN <= self.velocity.z + pull_sum(self.position.z as int, zs_of(others@))
                <= i64::MAX,
        ensures
            m.position == self.position,
            m.velocity.x == self.velocity.x + pull_sum(self.position.x as int, xs_of(others@)),
            m.velocity.y == self.velocity.y + pull_sum(self.position.y as int, ys_of(others@)),
            m.velocity.z == self.velocity.z + pull_sum(self.position.z as int, zs_of(others@)),
    {
        let n = others.len();
        let mut vx: i128 = self.velocity.x as i128;
        let mut vy: i128 = self.velocity.y as i128;
        let mut vz: i128 = self.velocity.z as i128;
        let mut i: usize = 0;
        while i < n
            invariant
                n == others@.len(),
                i <= n,
                vx == self.velocity.x + pull_sum(self.position.x as int, xs_of(others@).take(i as int)),
                vy == self.velocity.y + pull_sum(self.position.y as int, ys_of(others@).take(i as int)),
                vz == self.velocity.z + pull_sum(self.position.z as int, zs_of(others@).take(i as int)),
            decreases n - i,
        {
            proof {
                lemma_pull_sum_bound(self.position.x as int, xs_of(others@).take(i as int));
                lemma_pull_sum_bound(self.position.y as int, ys_of(others@).take(i as int));
                lemma_pull_sum_bound(self.position.z as int, zs_of(others@).take(i as int));
                assert(xs_of(others@).take(i as int + 1).drop_last() =~= xs_of(others@).take(
                    i as int,
                ));
                assert(ys_of(others@).take(i as int + 1).drop_last() =~= ys_of(others@).take(
                    i as int,
                ));
                assert(zs_of(others@).take(i as int + 1).drop_last() =~= zs_of(others@).take(
                    i as int,
                ));
            }
            let other = &others[i];
            if self.position.x < other.position.x {
                vx = vx + 1;
            }
            if self.position.x > other.position.x {
                vx = vx - 1;
            }
            if self.position.y < other.position.y {
                vy = vy + 1;
            }
            if self.position.y > other.position.y {
                vy = vy - 1;
            }
            if self.position.z < other.position.z {
                vz = vz + 1;
            }
            if self.position.z > other.position.z {
                vz = vz - 1;
            }
            i = i + 1;
        }
        proof {
            assert(xs_of(others@).take(n as int) =~= xs_of(others@));
            assert(ys_of(others@).take(n as int) =~= ys_of(others@));
            assert(zs_of(others@).take(n as int) =~= zs_of(others@));
        }
        Self {
            position: self.position,
            velocity: Coordinates { x: vx as i64, y: vy as i64, z: vz as i64 },
        }
    }

    /// Move the moon by its velocity.
    pub fn apply_velocity(&mut self)
        requires
            i64::MIN <= old(self).position.x + old(self).velocity.x <= i64::MAX,
            i64::MIN <= old(self).position.y + old(self).velocity.y <= i64::MAX,
            i64::MIN <= old(self).position.z + old(self).velocity.z <= i64::MAX,
        ensures
            final(self).position.x == old(self).position.x + old(self).velocity.x,
            final(self).position.y == old(self).position.y + old(self).velocity.y,
            final(self).position.z == old(self).position.z + old(self).velocity.z,
            final(self).velocity == old(self).velocity,
    {
        self.position.x = self.position.x + self.velocity.x;
        self.position.y = self.position.y + self.velocity.y;
        self.position.z = self.position.z + self.velocity.z;
    }
}

/// The x velocity of `m` after one step among the moons `s`.  A moon never
/// pulls itself, so letting the whole system act on each member counts
/// every other moon once.
pub open spec fn step_vel_x(m: Moon, s: Seq<Moon>) -> int {
    m.velocity.x + pull_sum(m.position.x as int, xs_of(s))
}

/// The y velocity of `m` after one step among the moons `s`.
pub open spec fn step_vel_y(m: Moon, s: Seq<Moon>) -> int {
    m.velocity.y + pull_sum(m.position.y as int, ys_of(s))
}

/// The z velocity of `m` after one step among the moons `s`.
pub open spec fn step_vel_z(m: Moon, s: Seq<Moon>) -> int {
    m.velocity.z + pull_sum(m.position.z as int, zs_of(s))
}

/// Whether one step keeps the moon `m` within the 64-bit range.
pub open spec fn moon_step_ok(m: Moon, s: Seq<Moon>) -> bool {
    &&& i64::MIN <= step_vel_x(m, s) <= i64::MAX
    &&& i64::MIN <= step_vel_y(m, s) <= i64::MAX
    &&& i64::MIN <= step_vel_z(m, s) <= i64::MAX
    &&& i64::MIN <= m.position.x + step_vel_x(m, s) <= i64::MAX
    &&& i64::MIN <= m.position.y + step_vel_y(m, s) <= i64::MAX
    &&& i64::MIN <= m.position.z + step_vel_z(m, s) <= i64::MAX
}

/// The moon `m` after one step among the moons `s`: gravity first, then
/// motion by the fresh velocity.
pub open spec fn moon_step(m: Moon, s: Seq<Moon>) -> Moon {
    Moon {
        position: Coordinates {
            x: (m.position.x + step_vel_x(m, s)) as i64,
            y: (m.position.y + step_vel_y(m, s)) as i64,
            z: (m.position.z + step_vel_z(m, s)) as i64,
        },
        velocity: Coordinates {
            x: step_vel_x(m, s) as i64,
            y: step_vel_y(m, s) as i64,
            z: step_vel_z(m, s) as i64,
        },
    }
}

/// The whole system after one step.
pub open spec fn moons_step(s: Seq<Moon>) -> Seq<Moon> {
    Seq::new(s.len(), |i: int| moon_step(s[i], s))
}

/// Whether one step keeps every moon within the 64-bit range.
pub open spec fn moons_step_ok(s: Seq<Moon>) -> bool {
    forall|i: int| 0 <= i < s.len() ==> moon_step_ok(#[trigger] s[i], s)
}

/// The system after `n` steps.
pub open spec fn moons_after(s: Seq<Moon>, n: nat) -> Seq<Moon>
    decreases n,
{
    if n == 0 {
        s
    } else {
        moons_step(moons_after(s, (n - 1) as nat))
    }
}

/// Whether `n` steps stay within the 64-bit range throughout.
pub open spec fn sim_ok(s: Seq<Moon>, n: nat) -> bool {
    forall|k: nat| k < n ==> moons_step_ok(#[trigger] moons_after(s, k))
}

/// Unfolding one step off the end of a simulation.
pub proof fn lemma_moons_after_succ(s: Seq<Moon>, n: nat)
    ensures
        moons_after(s, (n + 1) as nat) == moons_step(moons_after(s, n)),
{
    assert(moons_after(s, (n + 1) as nat) == moons_step(moons_after(s, ((n + 1) - 1) as nat)));
}

/// One step of the whole system, executably.
fn advance(moons: &Vec<Moon>) -> (r: Vec<Moon>)
    requires
        moons_step_ok(moons@),
    ensures
        r@ == moons_step(moons@),
{
    let n = moons.len();
    let mut new_moons: Vec<Moon> = Vec::new();
    let mut i: usize = 0;
    while i < n
        invariant
            n == moons@.len(),
            i <= n,
            moons_step_ok(moons@),
            new_moons@.len() == i as int,
            forall|j: int| 0 <= j < i ==> new_moons@[j] == moon_step(moons@[j], moons@),
        decreases n - i,
    {
        let mut m = moons[i].new_with_gravity(moons.as_slice());
        m.apply_velocity();
        proof {
            assert(m == moon_step(moons@[i as int], moons@));
        }
        new_moons.push(m);
        i = i + 1;
    }
    proof {
        assert(new_moons@ =~= moons_step(moons@));
    }
    new_moons
}

/// The system after `steps` steps of gravity and motion, provided the whole
/// simulation stays within the 64-bit range.
pub fn simulate(start: Vec<Moon>, steps: usize) -> (r: Vec<Moon>)
    requires
        sim_ok(start@, steps as nat),
    ensures
        r@ == moons_after(start@, steps as nat),
{
    let ghost s0 = start@;
    let mut moons = start;
    let mut k: usize = 0;
    while k < steps
        invariant
            k <= steps,
            sim_ok(s0, steps as nat),
            moons@ == moons_after(s0, k as nat),
        decreases steps - k,
    {
        proof {
            assert(moons_step_ok(moons_after(s0, k as nat)));
            lemma_moons_after_succ(s0, k as nat);
        }
        moons = advance(&moons);
        k = k + 1;
    }
    moons
}

/// The energy one moon contributes: potential times kinetic.
pub open spec fn moon_energy(m: Moon) -> int {
    m.position.spec_energy() * m.velocity.spec_energy()
}

/// The total energy of the system.
pub open spec fn total_energy_spec(s: Seq<Moon>) -> int
    decreases s.len(),
{
    if s.len() == 0 {
        0
    } else {
        total_energy_spec(s.drop_last()) + moon_energy(s.last())
    }
}

/// A moon's energy is never negative.
pub proof fn lemma_moon_energy_nonneg(m: Moon)
    ensures
        moon_energy(m) >= 0,
{
    vstd::arithmetic::mul::lemma_mul_nonnegative(
        m.position.spec_energy(),
        m.velocity.spec_energy(),
    );
}

/// Nor is the system's.
pub proof fn lemma_total_energy_nonneg(s: Seq<Moon>)
    ensures
        total_energy_spec(s) >= 0,
    decreases s.len(),
{
    if s.len() > 0 {
        lemma_total_energy_nonneg(s.drop_last());
        lemma_moon_energy_nonneg(s.last());
    }
}

/// Every prefix sum of the energies stays below the total.
pub proof fn lemma_total_energy_prefix(s: Seq<Moon>, i: int)
    requires
        0 <= i <= s.len(),
    ensures
        total_energy_spec(s.take(i)) <= total_energy_spec(s),
    decreases s.len() - i,
{
    if i == s.len() {
        assert(s.take(i) =~= s);
    } else {
        lemma_total_energy_prefix(s, i + 1);
        assert(s.take(i + 1).drop_last() =~= s.take(i));
        lemma_moon_energy_nonneg(s[i]);
    }
}

/// The total energy of the listed moons: the sum over the moons of the
/// product of positional and kinetic energy.
pub fn total_energy(moons: &[Moon]) -> (t: i64)
    requires
        forall|i: int| 0 <= i < moons@.len() ==> (#[trigger] moons@[i]).position.spec_energy()
            <= i64::MAX && moons@[i].velocity.spec_energy() <= i64::MAX && moon_energy(moons@[i])
            <= i64::MAX,
        total_energy_spec(moons@) <= i64::MAX,
    ensures
        t == total_energy_spec(moons@),
{
    let n = moons.len();
    let mut t: i64 = 0;
    let mut i: usize = 0;
    while i < n
        invariant
            n == moons@.len(),
            i <= n,
            t == total_energy_spec(moons@.take(i as int)),
            forall|j: int| 0 <= j < moons@.len() ==> (#[trigger] moons@[j]).position.spec_energy()
                <= i64::MAX && moons@[j].velocity.spec_energy() <= i64::MAX && moon_energy(
                moons@[j],
            ) <= i64::MAX,
            total_energy_spec(moons@) <= i64::MAX,
        decreases n - i,
    {
        proof {
            lemma_moon_energy_nonneg(moons@[i as int]);
            lemma_total_energy_nonneg(moons@.take(i as int));
            lemma_total_energy_prefix(moons@, i as int + 1);
            assert(moons@.take(i as int + 1).drop_last() =~= moons@.take(i as int));
            vstd::arithmetic::mul::lemma_mul_nonnegative(
                moons@[i as int].position.spec_energy(),
                moons@[i as int].velocity.spec_energy(),
            );
        }
        let pot = moons[i].position.energy();
        let kin = moons[i].velocity.energy();
        let e = pot * kin;
        t = t + e;
        i = i + 1;
    }
    proof {
        assert(moons@.take(n as int) =~= moons@);
    }
    t
}

/// One velocity component of `m`, selected by axis 0, 1 or 2.
pub open spec fn vel_axis(m: Moon, axis: int) -> i64 {
    if axis == 0 {
        m.velocity.x
    } else if axis == 1 {
        m.velocity.y
    } else {
        m.velocity.z
    }
}

/// Whether every moon is at rest along the given axis.
pub open spec fn axis_still(s: Seq<Moon>, axis: int) -> bool {
    forall|i: int| 0 <= i < s.len() ==> vel_axis(#[trigger] s[i], axis) == 0
}

/// Whether `n` is the first step after which the given axis is wholly at
/// rest.
pub open spec fn is_first_still(start: Seq<Moon>, axis: int, n: nat) -> bool {
    &&& n >= 1
    &&& axis_still(moons_after(start, n), axis)
    &&& forall|k: nat| 1 <= k < n ==> !axis_still(#[trigger] moons_after(start, k), axis)
}

/// There is at most one first step.
pub proof fn lemma_first_still_unique(start: Seq<Moon>, axis: int, n: nat, m: nat)
    requires
        is_first_still(start, axis, n),
        is_first_still(start, axis, m),
    ensures
        n == m,
{
    if n < m {
        assert(!axis_still(moons_after(start, n), axis));
    }
    if m < n {
        assert(!axis_still(moons_after(start, m), axis));
    }
}

/// Whether every moon is at rest along `axis`, executably.
fn all_still(moons: &Vec<Moon>, axis: u8) -> (r: bool)
    requires
        axis < 3,
    ensures
        r == axis_still(moons@, axis as int),
{
    let n = moons.len();
    let mut i: usize = 0;
    while i < n
        invariant
            n == moons@.len(),
            i <= n,
            axis < 3,
            forall|j: int| 0 <= j < i ==> vel_axis(#[trigger] moons@[j], axis as int) == 0,
        decreases n - i,
    {
        let v = if axis == 0 {
            moons[i].velocity.x
        } else if axis == 1 {
            moons[i].velocity.y
        } else {
            moons[i].velocity.z
        };
        if v != 0 {
            return false;
        }
        i = i + 1;
    }
    true
}

/// The number of steps until the whole system first repeats: each axis
/// evolves independently and symmetrically, so it first returns to rest at
/// some step, and the product of the three first-rest steps is returned, as
/// a stand-in for the full cycle length.  The simulation must come to rest
/// on every axis within the 64-bit range for this to be computable.
pub fn find_repeat_steps(start: Vec<Moon>) -> (r: i64)
    requires
        exists|n: nat| is_first_still(start@, 0, n),
        exists|n: nat| is_first_still(start@, 1, n),
        exists|n: nat| is_first_still(start@, 2, n),
        ({
            let n1 = choose|n: nat| is_first_still(start@, 0, n);
            let n2 = choose|n: nat| is_first_still(start@, 1, n);
            let n3 = choose|n: nat| is_first_still(start@, 2, n);
            let nmax = if n1 >= n2 && n1 >= n3 {
                n1
            } else if n2 >= n3 {
                n2
            } else {
                n3
            };
            n1 * n2 * n3 <= i64::MAX && sim_ok(start@, nmax)
        }),
    ensures
        ({
            let n1 = choose|n: nat| is_first_still(start@, 0, n);
            let n2 = choose|n: nat| is_first_still(start@, 1, n);
            let n3 = choose|n: nat| is_first_still(start@, 2, n);
            r == n1 * n2 * n3
        }),
{
    let ghost s0 = start@;
    let ghost n1 = choose|n: nat| is_first_still(s0, 0, n);
    let ghost n2 = choose|n: nat| is_first_still(s0, 1, n);
    let ghost n3 = choose|n: nat| is_first_still(s0, 2, n);
    let ghost nmax = if n1 >= n2 && n1 >= n3 {
        n1
    } else if n2 >= n3 {
        n2
    } else {
        n3
    };
    proof {
        assert(n1 * n2 * n3 >= n1 && n1 * n2 * n3 >= n2 && n1 * n2 * n3 >= n3)
            by (nonlinear_arith)
            requires
                n1 >= 1,
                n2 >= 1,
                n3 >= 1,
        ;
    }
    let mut moons = start;
    let mut step_count: i64 = 0;
    let mut s1: Option<i64> = Option::None;
    let mut s2: Option<i64> = Option::None;
    let mut s3: Option<i64> = Option::None;
    while s1.is_none() || s2.is_none() || s3.is_none()
        invariant
            n1 == (choose|n: nat| is_first_still(s0, 0, n)),
            n2 == (choose|n: nat| is_first_still(s0, 1, n)),
            n3 == (choose|n: nat| is_first_still(s0, 2, n)),
            is_first_still(s0, 0, n1),
            is_first_still(s0, 1, n2),
            is_first_still(s0, 2, n3),
            nmax == (if n1 >= n2 && n1 >= n3 {
                n1
            } else if n2 >= n3 {
                n2
            } else {
                n3
            }),
            nmax <= i64::MAX,
            sim_ok(s0, nmax),
            0 <= step_count <= nmax,
            moons@ == moons_after(s0, step_count as nat),
            (s1 matches Option::Some(v) ==> v == n1 && n1 <= step_count),
            (s2 matches Option::Some(v) ==> v == n2 && n2 <= step_count),
            (s3 matches Option::Some(v) ==> v == n3 && n3 <= step_count),
            (s1 is None ==> forall|k: nat|
                1 <= k <= step_count ==> !axis_still(#[trigger] moons_after(s0, k), 0)),
            (s2 is None ==> forall|k: nat|
                1 <= k <= step_count ==> !axis_still(#[trigger] moons_after(s0, k), 1)),
            (s3 is None ==> forall|k: nat|
                1 <= k <= step_count ==> !axis_still(#[trigger] moons_after(s0, k), 2)),
        decreases nmax - step_count,
    {
        proof {
            if s1 is None {
                assert(!axis_still(moons_after(s0, n1), 0) ==> false);
                assert(step_count < n1);
            }
            if s2 is None {
                assert(step_count < n2);
            }
            if s3 is None {
                assert(step_count < n3);
            }
            assert(step_count < nmax);
            assert(moons_step_ok(moons_after(s0, step_count as nat)));
            lemma_moons_after_succ(s0, step_count as nat);
        }
        moons = advance(&moons);
        step_count = step_count + 1;
        if s1.is_none() && all_still(&moons, 0) {
            proof {
                assert(is_first_still(s0, 0, step_count as nat));
                lemma_first_still_unique(s0, 0, step_count as nat, n1);
            }
            s1 = Option::Some(step_count);
        }
        if s2.is_none() && all_still(&moons, 1) {
            proof {
                assert(is_first_still(s0, 1, step_count as nat));
                lemma_first_still_unique(s0, 1, step_count as nat, n2);
            }
            s2 = Option::Some(step_count);
        }
        if s3.is_none() && all_still(&moons, 2) {
            proof {
                assert(is_first_still(s0, 2, step_count as nat));
                lemma_first_still_unique(s0, 2, step_count as nat, n3);
            }
            s3 = Option::Some(step_count);
        }
    }
    let a = s1.unwrap();
    let b = s2.unwrap();
    let c = s3.unwrap();
    proof {
        assert(n1 * n2 <= n1 * n2 * n3 && n1 * n2 >= 1) by (nonlinear_arith)
            requires
                n1 >= 1,
                n2 >= 1,
                n3 >= 1,
        ;
    }
    a * b * c
}

/// Whether `c` is a decimal digit.
pub open spec fn is_digit(c: char) -> bool {
    48 <= c as int <= 57
}

/// The value of the digit `c`.
pub open spec fn digit_val(c: char) -> int {
    c as int - 48
}

/// Whether the characters of `s` in `[from, end)` are all digits.
pub open spec fn all_digits_range(s: Seq<char>, from: int, end: int) -> bool {
    forall|k: int| from <= k < end ==> is_digit(#[trigger] s[k])
}

/// The number the digits of `s` in `[from, end)` spell.
pub open spec fn digits_val_range(s: Seq<char>, from: int, end: int) -> int
    decreases end - from,
{
    if end <= from {
        0
    } else {
        digits_val_range(s, from, end - 1) * 10 + digit_val(s[end - 1])
    }
}

/// The index of the first newline of `s` at or after `from`, or the length
/// when there is none.
pub open spec fn newline_at(s: Seq<char>, from: int) -> int
    decreases s.len() - from,
{
    if 0 <= from < s.len() {
        if s[from] == '\n' {
            from
        } else {
            newline_at(s, from + 1)
        }
    } else {
        s.len() as int
    }
}

/// Where the digit run starting at `from` ends.
pub open spec fn digits_end(s: Seq<char>, from: int) -> int
    decreases s.len() - from,
{
    if 0 <= from < s.len() && is_digit(s[from]) {
        digits_end(s, from + 1)
    } else {
        from
    }
}

/// Where the integer literal starting at `from` ends: an optional minus
/// sign, then its digit run.
pub open spec fn int_end(s: Seq<char>, from: int) -> int {
    if 0 <= from < s.len() && s[from] == '-' {
        digits_end(s, from + 1)
    } else {
        digits_end(s, from)
    }
}

/// Whether `[from, end)` holds a 64-bit integer literal: an optional minus
/// sign, at least one digit, and a value in range.
pub open spec fn wf_int_at(s: Seq<char>, from: int, end: int) -> bool {
    &&& 0 <= from < end <= s.len()
    &&& (if s[from] == '-' {
        from + 1 < end && all_digits_range(s, from + 1, end)
    } else {
        all_digits_range(s, from, end)
    })
    &&& i64::MIN <= int_val_at(s, from, end) <= i64::MAX
}

/// The value of the integer literal in `[from, end)`.
pub open spec fn int_val_at(s: Seq<char>, from: int, end: int) -> int {
    if 0 <= from < end && s[from] == '-' {
        -digits_val_range(s, from + 1, end)
    } else {
        digits_val_range(s, from, end)
    }
}

/// Whether `[start, end)` holds one moon line, `<x=A, y=B, z=C>` with
/// 64-bit integer literals A, B and C.
pub open spec fn wf_line_at(s: Seq<char>, start: int, end: int) -> bool {
    let e1 = int_end(s, start + 3);
    let e2 = int_end(s, e1 + 4);
    let e3 = int_end(s, e2 + 4);
    &&& 0 <= start
    &&& start + 4 <= end <= s.len()
    &&& s[start] == '<' && s[start + 1] == 'x' && s[start + 2] == '='
    &&& wf_int_at(s, start + 3, e1)
    &&& e1 + 3 < end
    &&& s[e1] == ',' && s[e1 + 1] == ' ' && s[e1 + 2] == 'y' && s[e1 + 3] == '='
    &&& wf_int_at(s, e1 + 4, e2)
    &&& e2 + 3 < end
    &&& s[e2] == ',' && s[e2 + 1] == ' ' && s[e2 + 2] == 'z' && s[e2 + 3] == '='
    &&& wf_int_at(s, e2 + 4, e3)
    &&& e3 == end - 1
    &&& s[e3] == '>'
}

/// The three coordinates the line starting at `start` spells.
pub open spec fn line_vals_at(s: Seq<char>, start: int) -> (int, int, int) {
    let e1 = int_end(s, start + 3);
    let e2 = int_end(s, e1 + 4);
    let e3 = int_end(s, e2 + 4);
    (int_val_at(s, start + 3, e1), int_val_at(s, e1 + 4, e2), int_val_at(s, e2 + 4, e3))
}

/// The first newline comes no earlier than `from` and no later than the
/// end, with none before it.
pub proof fn lemma_newline_at_bounds(s: Seq<char>, from: int)
    requires
        0 <= from <= s.len(),
    ensures
        from <= newline_at(s, from) <= s.len(),
    decreases s.len() - from,
{
    if from < s.len() && s[from] != '\n' {
        lemma_newline_at_bounds(s, from + 1);
    }
}

/// A scan that saw no newline up to `j`, and one (or the end) at `j`, found
/// the first newline.
pub proof fn lemma_newline_at_is(s: Seq<char>, from: int, j: int)
    requires
        0 <= from <= j <= s.len(),
        forall|k: int| from <= k < j ==> s[k] != '\n',
        j < s.len() ==> s[j] == '\n',
    ensures
        newline_at(s, from) == j,
    decreases j - from,
{
    if from < j {
        lemma_newline_at_is(s, from + 1, j);
    }
}

/// A scan that saw only digits up to `j`, and a non-digit (or the end) at
/// `j`, found the end of the digit run.
pub proof fn lemma_digits_end_is(s: Seq<char>, from: int, j: int)
    requires
        0 <= from <= j <= s.len(),
        forall|k: int| from <= k < j ==> is_digit(#[trigger] s[k]),
        j < s.len() ==> !is_digit(s[j]),
    ensures
        digits_end(s, from) == j,
    decreases j - from,
{
    if from < j {
        lemma_digits_end_is(s, from + 1, j);
    }
}

/// A digit run spells a non-negative number.
pub proof fn lemma_digits_val_nonneg(s: Seq<char>, from: int, end: int)
    requires
        all_digits_range(s, from, end),
    ensures
        digits_val_range(s, from, end) >= 0,
    decreases end - from,
{
    if end > from {
        lemma_digits_val_nonneg(s, from, end - 1);
    }
}

/// Reading a prefix of a digit run never overshoots the run's value.
pub proof fn lemma_digits_val_mono(s: Seq<char>, from: int, i: int, end: int)
    requires
        from <= i <= end,
        all_digits_range(s, from, end),
    ensures
        digits_val_range(s, from, i) <= digits_val_range(s, from, end),
    decreases end - i,
{
    if i < end {
        lemma_digits_val_mono(s, from, i + 1, end);
        lemma_digits_val_nonneg(s, from, i);
    }
}

/// Whether `s` from `pos` on is a well-formed moon list: newline-separated
/// moon lines, the last one with or without a trailing newline.
pub open spec fn wf_moon_text_from(s: Seq<char>, pos: int) -> bool
    decreases s.len() - pos,
    via wf_moon_text_from_decreases
{
    if pos < 0 || pos >= s.len() {
        true
    } else {
        let j = newline_at(s, pos);
        wf_line_at(s, pos, j) && (j >= s.len() || wf_moon_text_from(s, j + 1))
    }
}

#[via_fn]
proof fn wf_moon_text_from_decreases(s: Seq<char>, pos: int) {
    if 0 <= pos < s.len() {
        lemma_newline_at_bounds(s, pos);
    }
}

/// The coordinate triples the text from `pos` on spells, line by line.
pub open spec fn parsed_from(s: Seq<char>, pos: int) -> Seq<(int, int, int)>
    decreases s.len() - pos,
    via parsed_from_decreases
{
    if pos < 0 || pos >= s.len() {
        Seq::empty()
    } else {
        let j = newline_at(s, pos);
        seq![line_vals_at(s, pos)] + (if j >= s.len() {
            Seq::<(int, int, int)>::empty()
        } else {
            parsed_from(s, j + 1)
        })
    }
}

#[via_fn]
proof fn parsed_from_decreases(s: Seq<char>, pos: int) {
    if 0 <= pos < s.len() {
        lemma_newline_at_bounds(s, pos);
    }
}

/// The index of the first newline at or after `from`, or the length when
/// there is none, executably.
fn find_newline(input: &str, from: usize) -> (j: usize)
    requires
        from <= input@.len(),
    ensures
        j == newline_at(input@, from as int),
        from <= j <= input@.len(),
{
    let n = input.unicode_len();
    let mut i: usize = from;
    while i < n
        invariant
            n == input@.len(),
            from <= i <= n,
            forall|k: int| from <= k < i ==> input@[k] != '\n',
        decreases n - i,
    {
        if input.get_char(i) == '\n' {
            proof {
                lemma_newline_at_is(input@, from as int, i as int);
            }
            return i;
        }
        i = i + 1;
    }
    proof {
        lemma_newline_at_is(input@, from as int, n as int);
    }
    n
}

/// Whether `c` is a decimal digit, executably.
fn is_digit_exec(c: char) -> (r: bool)
    ensures
        r == is_digit(c),
{
    let u = c as u32;
    u >= 48 && u <= 57
}

/// The index just past the digit run starting at `from`, executably.
fn scan_digits(input: &str, from: usize) -> (j: usize)
    requires
        from <= input@.len(),
    ensures
        j == digits_end(input@, from as int),
        from <= j <= input@.len(),
        all_digits_range(input@, from as int, j as int),
{
    let n = input.unicode_len();
    let mut i: usize = from;
    while i < n && is_digit_exec(input.get_char(i))
        invariant
            n == input@.len(),
            from <= i <= n,
            forall|k: int| from <= k < i ==> is_digit(#[trigger] input@[k]),
        decreases n - i,
    {
        i = i + 1;
    }
    proof {
        lemma_digits_end_is(input@, from as int, i as int);
    }
    i
}

/// Read the 64-bit integer literal starting at `from`; hand back its value
/// and the index just past it.
fn parse_int_at(input: &str, from: usize) -> (r: (i64, usize))
    requires
        from < input@.len(),
        wf_int_at(input@, from as int, int_end(input@, from as int)),
    ensures
        r.1 == int_end(input@, from as int),
        r.0 == int_val_at(input@, from as int, int_end(input@, from as int)),
        from < r.1 <= input@.len(),
{
    let ghost e = int_end(input@, from as int);
    // the character count fits usize, which the index arithmetic below needs
    let _n = input.unicode_len();
    let neg = input.get_char(from) == '-';
    let start = if neg {
        from + 1
    } else {
        from
    };
    let j = scan_digits(input, start);
    proof {
        assert(j == e);
        lemma_digits_val_nonneg(input@, start as int, e);
    }
    let mut i: usize = start;
    let mut acc: i128 = 0;
    while i < j
        invariant
            from < input@.len(),
            wf_int_at(input@, from as int, e),
            e == int_end(input@, from as int),
            j == e,
            neg == (input@[from as int] == '-'),
            start == (if neg {
                from + 1
            } else {
                from as int
            }),
            start <= i <= j <= input@.len(),
            all_digits_range(input@, start as int, j as int),
            acc == digits_val_range(input@, start as int, i as int),
            0 <= acc <= i64::MAX as i128 + 1,
        decreases j - i,
    {
        let c = input.get_char(i);
        let u = c as u32;
        proof {
            assert(is_digit(input@[i as int]));
            lemma_digits_val_mono(input@, start as int, i as int + 1, j as int);
            lemma_digits_val_nonneg(input@, start as int, i as int);
            if neg {
                assert(digits_val_range(input@, start as int, e) <= i64::MAX as int + 1);
            } else {
                assert(digits_val_range(input@, start as int, e) <= i64::MAX as int);
            }
        }
        acc = acc * 10 + (u - 48) as i128;
        i = i + 1;
    }
    let v: i64 = if neg {
        (-acc) as i64
    } else {
        acc as i64
    };
    (v, j)
}

/// The moons a coordinate listing spells: one line per moon, each of the
/// shape `<x=A, y=B, z=C>`, every moon starting at rest.
pub fn parse_moons(input: &str) -> (moons: Vec<Moon>)
    requires
        wf_moon_text_from(input@, 0),
    ensures
        moons@.len() == parsed_from(input@, 0).len(),
        forall|i: int| 0 <= i < moons@.len() ==> {
            &&& (#[trigger] moons@[i]).position.x == parsed_from(input@, 0)[i].0
            &&& moons@[i].position.y == parsed_from(input@, 0)[i].1
            &&& moons@[i].position.z == parsed_from(input@, 0)[i].2
            &&& moons@[i].velocity.x == 0
            &&& moons@[i].velocity.y == 0
            &&& moons@[i].velocity.z == 0
        },
{
    let ghost full = input@;
    let ghost whole = parsed_from(full, 0);
    let n = input.unicode_len();
    let mut moons: Vec<Moon> = Vec::new();
    let mut pos: usize = 0;
    while pos < n
        invariant
            n == full.len(),
            full == input@,
            whole == parsed_from(full, 0),
            pos <= n,
            wf_moon_text_from(full, pos as int),
            moons@.len() + parsed_from(full, pos as int).len() == whole.len(),
            forall|i: int| 0 <= i < moons@.len() ==> {
                &&& (#[trigger] moons@[i]).position.x == whole[i].0
                &&& moons@[i].position.y == whole[i].1
                &&& moons@[i].position.z == whole[i].2
                &&& moons@[i].velocity.x == 0
                &&& moons@[i].velocity.y == 0
                &&& moons@[i].velocity.z == 0
            },
            forall|i: int| 0 <= i < parsed_from(full, pos as int).len()
                ==> #[trigger] parsed_from(full, pos as int)[i] == whole[moons@.len() + i],
        decreases n - pos,
    {
        let ghost j_spec = newline_at(full, pos as int);
        proof {
            lemma_newline_at_bounds(full, pos as int);
        }
        let j = find_newline(input, pos);
        let (x, e1) = parse_int_at(input, pos + 3);
        let (y, e2) = parse_int_at(input, e1 + 4);
        let (z, _e3) = parse_int_at(input, e2 + 4);
        proof {
            assert((x as int, y as int, z as int) == line_vals_at(full, pos as int));
        }
        moons.push(Moon::new_static(x, y, z));
        let ghost rest = if j_spec >= full.len() {
            Seq::<(int, int, int)>::empty()
        } else {
            parsed_from(full, j_spec + 1)
        };
        proof {
            assert(parsed_from(full, pos as int) == seq![line_vals_at(full, pos as int)] + rest);
            assert(parsed_from(full, pos as int)[0] == line_vals_at(full, pos as int));
            assert forall|i: int| 0 <= i < rest.len() implies #[trigger] rest[i] == whole[moons@.len() + i] by {
                assert(parsed_from(full, pos as int)[i + 1] == rest[i]);
            }
        }
        if j < n {
            pos = j + 1;
        } else {
            pos = n;
            proof {
                assert(parsed_from(full, pos as int) =~= rest);
            }
        }
    }
    proof {
        assert(parsed_from(full, n as int).len() == 0);
    }
    moons
}

} // verus!
