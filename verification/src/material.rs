use vstd::prelude::*;

verus! {

/// How many units of a fixed-point property make up one: properties are kept to nine
/// decimal places.
pub const UNITS_PER_ONE: i64 = 1_000_000_000;

/// Represents a material type.
///
/// Every property is a fixed-point number: the field holds the property times
/// `UNITS_PER_ONE`. Two materials are the same material exactly when all five numbers
/// agree, so a material can be found again by its value.
#[derive(Debug, PartialEq, Eq, Clone, Copy, Hash)]
pub struct Material {
    /// The density of the material in kg/m^3
    pub density: i64,
    /// The specific heat of the material in J / K * kg
    pub specific_heat: i64,
    /// Coefficients (a, b, c) of the thermal conductivity C of the material in W / m K,
    /// given as C = a*T^2 + b*T + c for a temperature T in kelvin
    pub thermal_conductivity: (i64, i64, i64),
}

impl Material {
    /// The conductivity polynomial `a*T^2 + b*T + c` at `temp`, in fixed-point units.
    pub open spec fn conductivity_at(self, temp: int) -> int {
        self.thermal_conductivity.0 * temp * temp + self.thermal_conductivity.1 * temp
            + self.thermal_conductivity.2
    }

    /// Default blank material: a perfect insulator.
    pub fn blank() -> (material: Material)
        ensures
            material == Self::blank_spec(),
    {
        Material {
            density: 1_000_000_000_000,
            specific_heat: 1_000_000_000_000,
            thermal_conductivity: (0, 0, 0),
        }
    }

    /// The blank material as a value.
    pub open spec fn blank_spec() -> Material {
        Material {
            density: 1_000_000_000_000,
            specific_heat: 1_000_000_000_000,
            thermal_conductivity: (0, 0, 0),
        }
    }

    /// Default material aproximating the properties of water at sea level atmospheric
    /// pressure
    pub fn water() -> (material: Material)
        ensures
            material == Self::water_spec(),
    {
        Material {
            density: 1_000_000_000_000,
            specific_heat: 4_000_000_000_000,
            thermal_conductivity: (-6_454, 5_208_000, -368_600_000),
        }
    }

    /// The water material as a value.
    pub open spec fn water_spec() -> Material {
        Material {
            density: 1_000_000_000_000,
            specific_heat: 4_000_000_000_000,
            thermal_conductivity: ((-6_454) as i64, 5_208_000, (-368_600_000) as i64),
        }
    }

    /// Get the termal conductivity at the given termperature in whole kelvin, in
    /// fixed-point units
    pub fn get_thermal_conductivity(&self, temp: i32) -> (conductivity: i128)
        ensures
            conductivity == self.conductivity_at(temp as int),
    {
        let t: i128 = temp as i128;
        assert(0 <= t * t <= 0x4000_0000_0000_0000) by (nonlinear_arith)
            requires
                -0x8000_0000 <= t <= 0x7fff_ffff,
        ;
        let square: i128 = t * t;
        let a: i128 = self.thermal_conductivity.0 as i128;
        let b: i128 = self.thermal_conductivity.1 as i128;
        assert(-0x2000_0000_0000_0000_0000_0000_0000_0000 <= a * square
            <= 0x2000_0000_0000_0000_0000_0000_0000_0000) by (nonlinear_arith)
            requires
                0 <= square <= 0x4000_0000_0000_0000,
                -0x8000_0000_0000_0000 <= a <= 0x7fff_ffff_ffff_ffff,
        ;
        assert(-0x4000_0000_0000_0000_0000_0000 <= b * t <= 0x4000_0000_0000_0000_0000_0000)
            by (nonlinear_arith)
            requires
                -0x8000_0000 <= t <= 0x7fff_ffff,
                -0x8000_0000_0000_0000 <= b <= 0x7fff_ffff_ffff_ffff,
        ;
        assert(a * square == self.thermal_conductivity.0 * temp * temp) by (nonlinear_arith)
            requires
                a == self.thermal_conductivity.0,
                square == t * t,
                t == temp,
        ;
        a * square + b * t + self.thermal_conductivity.2 as i128
    }

    /// Whether the two materials have the same five properties.
    pub fn same_as(&self, other: &Material) -> (same: bool)
        ensures
            same == (*self == *other),
    {
        self.density == other.density && self.specific_heat == other.specific_heat
            && self.thermal_conductivity.0 == other.thermal_conductivity.0
            && self.thermal_conductivity.1 == other.thermal_conductivity.1
            && self.thermal_conductivity.2 == other.thermal_conductivity.2
    }
}

/// The blank material conducts nothing at any temperature.
pub proof fn lemma_blank_is_insulator(temp: int)
    ensures
        Material::blank_spec().conductivity_at(temp) == 0,
{
}

} // verus!
