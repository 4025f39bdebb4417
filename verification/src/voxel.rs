use vstd::prelude::*;

verus! {

pub type Color = (u8, u8, u8, u8);

/// A single cell of the legacy one-voxel-per-block model.
#[derive(Clone, Copy, Debug)]
pub enum Voxel {
    Air,
    Wire { is_on: bool },
    Block { color: Color },
    Toggle { is_on: bool },
    Pixel { is_on: bool },
    ANDGate { is_on: bool },
    ORGate { is_on: bool },
    NOTGate { is_on: bool },
    Clock { frequency: u32, start_tick: u32 },
    Pulse { is_on: bool, pulse_ticks: u32 },
}

impl Voxel {
    /// The lower-case name of the voxel's kind.
    pub open spec fn name(self) -> Seq<char> {
        match self {
            Voxel::Air => "air"@,
            Voxel::Wire { .. } => "wire"@,
            Voxel::Block { .. } => "block"@,
            Voxel::Toggle { .. } => "toggle"@,
            Voxel::Pixel { .. } => "pixel"@,
            Voxel::ANDGate { .. } => "gate_and"@,
            Voxel::ORGate { .. } => "gate_or"@,
            Voxel::NOTGate { .. } => "gate_not"@,
            Voxel::Clock { .. } => "clock"@,
            Voxel::Pulse { .. } => "pulse"@,
        }
    }

    /// The lower-case name of the voxel's kind.
    pub fn get_name(&self) -> (name: &'static str)
        ensures
            name@ == self.name(),
    {
        match self {
            Voxel::Air => "air",
            Voxel::Wire { .. } => "wire",
            Voxel::Block { .. } => "block",
            Voxel::Toggle { .. } => "toggle",
            Voxel::Pixel { .. } => "pixel",
            Voxel::ANDGate { .. } => "gate_and",
            Voxel::ORGate { .. } => "gate_or",
            Voxel::NOTGate { .. } => "gate_not",
            Voxel::Clock { .. } => "clock",
            Voxel::Pulse { .. } => "pulse",
        }
    }
}

impl Default for Voxel {
    fn default() -> (v: Self)
        ensures
            v == Voxel::Air,
    {
        Voxel::Air
    }
}

} // verus!
