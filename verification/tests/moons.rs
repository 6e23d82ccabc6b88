use intcode::moons::{find_repeat_steps, parse_moons, simulate, total_energy, Coordinates, Moon};

const EXAMPLE: &str = "<x=-1, y=0, z=2>\n<x=2, y=-10, z=-7>\n<x=4, y=-8, z=8>\n<x=3, y=5, z=-1>";

#[test]
fn energy_is_the_absolute_component_sum() {
    let c = Coordinates { x: 2, y: -3, z: 6 };
    assert_eq!(c.energy(), 11);
    let o = Coordinates { x: 0, y: 0, z: 0 };
    assert_eq!(o.energy(), 0);
}

#[test]
fn new_static_starts_at_rest() {
    let m = Moon::new_static(4, -8, 8);
    assert_eq!(m.position, Coordinates { x: 4, y: -8, z: 8 });
    assert_eq!(m.velocity, Coordinates { x: 0, y: 0, z: 0 });
}

#[test]
fn gravity_pulls_one_unit_per_axis() {
    let a = Moon::new_static(3, 0, 5);
    let b = Moon::new_static(5, 0, 3);
    let pulled = a.new_with_gravity(&[b]);
    assert_eq!(pulled.position, a.position);
    assert_eq!(pulled.velocity, Coordinates { x: 1, y: 0, z: -1 });
}

#[test]
fn apply_velocity_moves_the_moon() {
    let mut m = Moon {
        position: Coordinates { x: 1, y: 2, z: 3 },
        velocity: Coordinates { x: -2, y: 0, z: 3 },
    };
    m.apply_velocity();
    assert_eq!(m.position, Coordinates { x: -1, y: 2, z: 6 });
    assert_eq!(m.velocity, Coordinates { x: -2, y: 0, z: 3 });
}

#[test]
fn parse_moons_reads_the_listing() {
    let moons = parse_moons(EXAMPLE);
    assert_eq!(moons.len(), 4);
    assert_eq!(moons[0].position, Coordinates { x: -1, y: 0, z: 2 });
    assert_eq!(moons[1].position, Coordinates { x: 2, y: -10, z: -7 });
    assert_eq!(moons[2].position, Coordinates { x: 4, y: -8, z: 8 });
    assert_eq!(moons[3].position, Coordinates { x: 3, y: 5, z: -1 });
    for m in &moons {
        assert_eq!(m.velocity, Coordinates { x: 0, y: 0, z: 0 });
    }
}

#[test]
fn parse_moons_accepts_a_trailing_newline_and_empty_input() {
    let moons = parse_moons("<x=1, y=2, z=3>\n");
    assert_eq!(moons.len(), 1);
    assert_eq!(moons[0].position, Coordinates { x: 1, y: 2, z: 3 });
    assert_eq!(parse_moons("").len(), 0);
}

#[test]
fn example_reaches_energy_179_after_ten_steps() {
    let moons = parse_moons(EXAMPLE);
    let after = simulate(moons, 10);
    // positions after ten steps, from the worked example
    assert_eq!(after[0].position, Coordinates { x: 2, y: 1, z: -3 });
    assert_eq!(after[0].velocity, Coordinates { x: -3, y: -2, z: 1 });
    assert_eq!(total_energy(&after), 179);
}

#[test]
fn simulate_zero_steps_changes_nothing() {
    let moons = parse_moons(EXAMPLE);
    let same = simulate(moons.clone(), 0);
    assert_eq!(same, moons);
}

#[test]
fn example_repeats_after_2772_steps() {
    let moons = parse_moons(EXAMPLE);
    assert_eq!(find_repeat_steps(moons), 2772);
}
