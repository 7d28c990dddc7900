use vstd::prelude::*;

verus! {

/// Height below which a tile of the normalised height scale is open ocean.
pub const OCEAN: i64 = 30;

/// Sea level of the normalised height scale.
pub const BIOME_SEA_LEVEL: i64 = 60;

/// Rainfall fraction above which warm shallows grow coral: eight tenths of
/// `UNIT` on the unit rainfall scale.
pub const CORAL_RAIN: i64 = 3276;

/// Temperature fraction above which shallows count as warm: six tenths of
/// `UNIT` on the unit temperature scale.
pub const CORAL_TEMP: i64 = 2457;

/// Rainfall fraction above which shallows count as sea rather than ocean:
/// six tenths of `UNIT`.
pub const SHALLOW_SEA_RAIN: i64 = 2457;

/// The biome classification of one tile, a pure function of its height,
/// temperature and rainfall.
#[derive(Clone, Copy, PartialEq, Eq, Structural, Debug)]
pub enum Biome {
    Grassland,
    DeepOcean,
    CoralReef,
    ShallowSea,
    ShallowOcean,
}

/// The fixed decision table behind `assign_biome`: deep water below the
/// ocean height, three shallow-water biomes split by rainfall and warmth
/// below sea level, and grassland above it.
pub open spec fn spec_assign_biome(height: int, temperature: int, rainfall: int) -> Biome {
    if height < OCEAN {
        Biome::DeepOcean
    } else if height < BIOME_SEA_LEVEL {
        if rainfall > CORAL_RAIN && temperature > CORAL_TEMP {
            Biome::CoralReef
        } else if rainfall > SHALLOW_SEA_RAIN {
            Biome::ShallowSea
        } else {
            Biome::ShallowOcean
        }
    } else {
        Biome::Grassland
    }
}

/// Classify one tile from its height on the normalised scale, its
/// temperature in `[-UNIT, UNIT]` and its rainfall in `[0, UNIT]`.
pub fn assign_biome(height: i64, temperature: i64, rainfall: i64) -> (r: Biome)
    ensures
        r == spec_assign_biome(height as int, temperature as int, rainfall as int),
{
    if height < OCEAN {
        Biome::DeepOcean
    } else if height < BIOME_SEA_LEVEL {
        if rainfall > CORAL_RAIN && temperature > CORAL_TEMP {
            Biome::CoralReef
        } else if rainfall > SHALLOW_SEA_RAIN {
            Biome::ShallowSea
        } else {
            Biome::ShallowOcean
        }
    } else {
        Biome::Grassland
    }
}

/// The display colour of each biome, as red, green, blue and alpha bytes.
pub open spec fn spec_biome_color(b: Biome) -> (u8, u8, u8, u8) {
    match b {
        Biome::Grassland => (91u8, 235u8, 52u8, 255u8),
        Biome::DeepOcean => (12u8, 63u8, 173u8, 255u8),
        Biome::CoralReef => (12u8, 173u8, 146u8, 255u8),
        Biome::ShallowSea => (30u8, 231u8, 235u8, 255u8),
        Biome::ShallowOcean => (48u8, 109u8, 240u8, 255u8),
    }
}

impl Biome {
    /// The biome's display colour, as red, green, blue and alpha bytes.
    pub fn color(&self) -> (r: (u8, u8, u8, u8))
        ensures
            r == spec_biome_color(*self),
    {
        match self {
            Biome::Grassland => (91, 235, 52, 255),
            Biome::DeepOcean => (12, 63, 173, 255),
            Biome::CoralReef => (12, 173, 146, 255),
            Biome::ShallowSea => (30, 231, 235, 255),
            Biome::ShallowOcean => (48, 109, 240, 255),
        }
    }
}

/// The terrain colour table of the two-dimensional view: a colour for each
/// combination of land code, height band, temperature band and rainfall
/// band, over the map's own field units.
pub open spec fn spec_assign_color(
    terrain_type: int,
    height: int,
    temperature: int,
    rainfall: int,
) -> (u8, u8, u8, u8) {
    if terrain_type == 0 || height <= 65 {
        (0, 0, 255, 255)
    } else if terrain_type == 2 {
        (135, 206, 235, 255)
    } else if terrain_type == -1 {
        (0, 0, 139, 255)
    } else if terrain_type == 1 && height > 180 {
        (176, 224, 230, 255)
    } else if temperature > 15 {
        if rainfall < 100 {
            (237, 201, 175, 255)
        } else if rainfall < 250 {
            (238, 220, 130, 255)
        } else {
            (34, 139, 34, 255)
        }
    } else if temperature > 5 {
        if rainfall < 50 {
            (124, 252, 0, 255)
        } else if rainfall < 120 {
            (139, 69, 19, 255)
        } else if rainfall < 250 {
            (34, 139, 34, 255)
        } else {
            (0, 128, 0, 255)
        }
    } else if temperature > 0 {
        if rainfall < 50 {
            (176, 224, 230, 255)
        } else {
            (0, 100, 0, 255)
        }
    } else {
        (176, 224, 230, 255)
    }
}

/// Pick the terrain colour for one map cell from its land code and its
/// height, temperature and rainfall in the map's field units: blue water,
/// banded ocean shades, and temperature- and rainfall-banded land biomes.
pub fn assign_color(terrain_type: i32, height: i64, temperature: i64, rainfall: i64)
    -> (r: (u8, u8, u8, u8))
    ensures
        r == spec_assign_color(terrain_type as int, height as int, temperature as int,
            rainfall as int),
{
    if terrain_type == 0 || height <= 65 {
        (0, 0, 255, 255)
    } else if terrain_type == 2 {
        (135, 206, 235, 255)
    } else if terrain_type == -1 {
        (0, 0, 139, 255)
    } else if terrain_type == 1 && height > 180 {
        (176, 224, 230, 255)
    } else if temperature > 15 {
        if rainfall < 100 {
            (237, 201, 175, 255)
        } else if rainfall < 250 {
            (238, 220, 130, 255)
        } else {
            (34, 139, 34, 255)
        }
    } else if temperature > 5 {
        if rainfall < 50 {
            (124, 252, 0, 255)
        } else if rainfall < 120 {
            (139, 69, 19, 255)
        } else if rainfall < 250 {
            (34, 139, 34, 255)
        } else {
            (0, 128, 0, 255)
        }
    } else if temperature > 0 {
        if rainfall < 50 {
            (176, 224, 230, 255)
        } else {
            (0, 100, 0, 255)
        }
    } else {
        (176, 224, 230, 255)
    }
}

} // verus!
