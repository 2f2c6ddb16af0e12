use thermal_rs::material::{Material, UNITS_PER_ONE};

#[test]
fn blank_is_an_insulator_of_unit_heat_capacity() {
    let blank = Material::blank();
    assert_eq!(blank.density, 1000 * UNITS_PER_ONE);
    assert_eq!(blank.specific_heat, 1000 * UNITS_PER_ONE);
    assert_eq!(blank.thermal_conductivity, (0, 0, 0));
    for temp in [i32::MIN, -273, 0, 1, 300, 400, i32::MAX] {
        assert_eq!(blank.get_thermal_conductivity(temp), 0);
    }
}

#[test]
fn water_has_its_coefficients() {
    let water = Material::water();
    assert_eq!(water.density, 1000 * UNITS_PER_ONE);
    assert_eq!(water.specific_heat, 4000 * UNITS_PER_ONE);
    assert_eq!(water.thermal_conductivity, (-6_454, 5_208_000, -368_600_000));
}

#[test]
fn conductivity_is_the_quadratic() {
    let water = Material::water();
    assert_eq!(water.get_thermal_conductivity(0), -368_600_000);
    assert_eq!(water.get_thermal_conductivity(1), -6_454 + 5_208_000 - 368_600_000);
    assert_eq!(water.get_thermal_conductivity(300), 612_940_000);
    assert_eq!(water.get_thermal_conductivity(-10), -645_400 - 52_080_000 - 368_600_000);
}

#[test]
fn conductivity_does_not_overflow_at_the_extremes() {
    let m = Material {
        density: 0,
        specific_heat: 0,
        thermal_conductivity: (i64::MAX, i64::MAX, i64::MAX),
    };
    let t = i32::MAX as i128;
    let c = i64::MAX as i128;
    assert_eq!(m.get_thermal_conductivity(i32::MAX), c * t * t + c * t + c);
    let m = Material {
        density: 0,
        specific_heat: 0,
        thermal_conductivity: (i64::MIN, i64::MIN, i64::MIN),
    };
    let t = i32::MIN as i128;
    let c = i64::MIN as i128;
    assert_eq!(m.get_thermal_conductivity(i32::MIN), c * t * t + c * t + c);
}

#[test]
fn materials_are_equal_by_value() {
    let a = Material::water();
    let b = Material {
        density: 1_000_000_000_000,
        specific_heat: 4_000_000_000_000,
        thermal_conductivity: (-6_454, 5_208_000, -368_600_000),
    };
    assert!(a.same_as(&b));
    assert_eq!(a, b);
    assert!(!a.same_as(&Material::blank()));
    for changed in [
        Material { density: b.density + 1, ..b },
        Material { specific_heat: b.specific_heat + 1, ..b },
        Material { thermal_conductivity: (-6_453, 5_208_000, -368_600_000), ..b },
        Material { thermal_conductivity: (-6_454, 5_208_001, -368_600_000), ..b },
        Material { thermal_conductivity: (-6_454, 5_208_000, -368_600_001), ..b },
    ] {
        assert!(!a.same_as(&changed));
        assert_ne!(a, changed);
    }
}
