use crate::grid::Coord;
use vstd::prelude::*;
use vstd::string::*;

verus! {

pub type VoxelID = String;

pub type PowerState = bool;

/// The name of the circuit terminal with the given base name.
pub open spec fn terminal_name(base: Seq<char>) -> Seq<char> {
    seq!['!'] + base
}

/// Names that begin with `!` denote circuit terminals.
pub open spec fn is_terminal_name(name: Seq<char>) -> bool {
    name.len() > 0 && name[0] == '!'
}

/// The name of the circuit terminal with the given base name.
pub fn circuit_voxel(name: &str) -> (id: String)
    ensures
        id@ == terminal_name(name@),
{
    proof {
        reveal_strlit("!");
    }
    let id = String::from_str("!").concat(name);
    assert(id@ =~= terminal_name(name@));
    id
}

/// Whether the name denotes a circuit terminal.
pub fn is_circuit_voxel(name: &str) -> (b: bool)
    ensures
        b == is_terminal_name(name@),
{
    !name.is_empty() && name.get_char(0) == '!'
}

#[derive(Clone, Copy, Debug, PartialEq, Eq, Structural)]
pub enum Orient {
    /// Facing +Z
    FORWARD,
    /// Facing +X
    RIGHT,
    /// Facing -X
    LEFT,
    /// Facing -Z
    BACKWARD,
    /// Facing +Y
    UPWARD,
    /// Facing -Y
    DOWNWARD,
}

impl Default for Orient {
    fn default() -> (o: Self)
        ensures
            o == Orient::FORWARD,
    {
        Self::FORWARD
    }
}

impl Orient {
    /// Where a local offset points once the block faces this way.
    pub open spec fn turned(self, c: Coord) -> Coord {
        match self {
            Orient::FORWARD => c,
            Orient::RIGHT => Coord { x: c.z, y: c.y, z: c.x },
            Orient::LEFT => Coord { x: (-c.z) as i32, y: c.y, z: (-c.x) as i32 },
            Orient::BACKWARD => Coord { x: (-c.x) as i32, y: c.y, z: (-c.z) as i32 },
            Orient::UPWARD => Coord { x: c.x, y: c.z, z: c.y },
            Orient::DOWNWARD => Coord { x: c.x, y: (-c.z) as i32, z: (-c.y) as i32 },
        }
    }

    /// Applies the orientation to a local offset.
    pub fn turn(&self, c: Coord) -> (t: Coord)
        requires
            c.interior(),
        ensures
            t == self.turned(c),
            small(c) ==> small(t),
    {
        match self {
            Orient::FORWARD => c,
            Orient::RIGHT => Coord { x: c.z, y: c.y, z: c.x },
            Orient::LEFT => Coord { x: -c.z, y: c.y, z: -c.x },
            Orient::BACKWARD => Coord { x: -c.x, y: c.y, z: -c.z },
            Orient::UPWARD => Coord { x: c.x, y: c.z, z: c.y },
            Orient::DOWNWARD => Coord { x: c.x, y: -c.z, z: -c.y },
        }
    }
}

#[derive(Clone, Copy, Debug, Default, PartialEq, Eq, Structural)]
pub struct VoxelPowered {
    pub powered: bool,
}

#[derive(Clone, Copy, Debug, Default, PartialEq, Eq, Structural)]
pub struct VoxelMemory {
    pub stored: bool,
    pub powered: bool,
}

#[derive(Clone, Copy, Debug, Default, PartialEq, Eq, Structural)]
pub struct VoxelPulseLatch {
    pub pulse_ticks: u32,
    pub pulse_battery: u32,
    pub powered: bool,
}

#[derive(Clone, Copy, Debug, Default, PartialEq, Eq, Structural)]
pub struct VoxelPixel {
    pub powered: bool,
}

#[derive(Clone, Copy, Debug, Default, PartialEq, Eq, Structural)]
pub struct VoxelBlock {}

#[derive(Clone, Copy, Debug, Default, PartialEq, Eq, Structural)]
pub struct VoxelClock {
    pub rate: u32,
    pub start_tick: u32,
    pub powered: bool,
}

#[derive(Clone, Copy, Debug, Default, PartialEq, Eq, Structural)]
pub struct VoxelPulse {
    pub start_tick: u32,
    pub pulse_ticks: u32,
    pub powered: bool,
}

#[derive(Clone, Copy, Debug, PartialEq, Eq, Structural)]
pub enum Block {
    Air,
    Wire(VoxelPowered),
    Block(VoxelBlock),
    Toggle(VoxelPowered),
    Pixel(VoxelPixel),
    ANDGate(VoxelPowered),
    ORGate(VoxelPowered),
    XORGate(VoxelPowered),
    NANDGate(VoxelPowered),
    NORGate(VoxelPowered),
    XNORGate(VoxelPowered),
    NOTGate(VoxelPowered),
    Diode(VoxelPowered),
    Clock(VoxelClock),
    Pulse(VoxelPulse),
    ToggleLatch(VoxelMemory),
    PulseLatch(VoxelPulseLatch),
    MemoryLatch(VoxelMemory),
}

impl Default for Block {
    fn default() -> (b: Self)
        ensures
            b == Block::Air,
    {
        Self::Air
    }
}

/// The voxel layouts that block kinds share.
#[derive(Clone, Copy, Debug, PartialEq, Eq, Structural)]
pub enum Layout {
    /// No voxel at all.
    Nothing,
    /// One solid voxel.
    Solid,
    /// One terminal voxel at the block's position.
    Terminal,
    /// An input terminal at the block's position and an output terminal behind it.
    Through,
    /// A solid shell of six voxels with two inputs in front and one output at the back.
    Shell,
}

/// A structure: the voxels of a block, each with its name and its position.
pub type Structure = Seq<(Seq<char>, Coord)>;

/// The names and positions of a list of voxels.
pub open spec fn structure_view(voxels: Seq<(String, Coord)>) -> Structure {
    Seq::new(voxels.len(), |i: int| (voxels[i].0@, voxels[i].1))
}

/// The names and power projections of a list of terminals.
pub open spec fn powers_view(terminals: Seq<(String, Option<bool>)>) -> Seq<
    (Seq<char>, Option<bool>),
> {
    Seq::new(terminals.len(), |i: int| (terminals[i].0@, terminals[i].1))
}

/// The structure of a block with a single voxel.
pub open spec fn single_structure(name: Seq<char>) -> Structure {
    seq![(name, Coord { x: 0, y: 0, z: 0 })]
}

/// The structure of a block with one input and one output.
pub open spec fn through_structure() -> Structure {
    seq![
        (terminal_name("in"@), Coord { x: 0, y: 0, z: 0 }),
        (terminal_name("out"@), Coord { x: 0, y: 0, z: 1 }),
    ]
}

/// The structure of a block with two inputs, one output and a solid shell.
pub open spec fn shell_structure() -> Structure {
    seq![
        ("solid-0"@, Coord { x: 0, y: 0, z: 0 }),
        ("solid-1"@, Coord { x: -1i32, y: 0, z: 1 }),
        ("solid-2"@, Coord { x: 1, y: 0, z: 1 }),
        ("solid-3"@, Coord { x: -1i32, y: 0, z: 0 }),
        ("solid-4"@, Coord { x: 1, y: 0, z: 0 }),
        ("solid-5"@, Coord { x: 0, y: 0, z: -1i32 }),
        (terminal_name("in_a"@), Coord { x: -1i32, y: 0, z: -1i32 }),
        (terminal_name("in_b"@), Coord { x: 1, y: 0, z: -1i32 }),
        (terminal_name("out"@), Coord { x: 0, y: 0, z: 1 }),
    ]
}

/// No two voxels of the structure share a name.
pub open spec fn names_distinct(s: Structure) -> bool {
    forall|i: int, j: int| 0 <= i < s.len() && 0 <= j < s.len() && i != j ==> s[i].0 != s[j].0
}

/// No two voxels of the structure share a position.
pub open spec fn places_distinct(s: Structure) -> bool {
    forall|i: int, j: int| 0 <= i < s.len() && 0 <= j < s.len() && i != j ==> s[i].1 != s[j].1
}

/// What tells the voxel names of one structure apart: the length, the second
/// character and the last one.
pub open spec fn name_mark(name: Seq<char>) -> (nat, char, char) {
    (name.len(), name[1], name[name.len() - 1])
}

fn single(name: String) -> (voxels: Vec<(String, Coord)>)
    ensures
        structure_view(voxels@) == single_structure(name@),
{
    let mut voxels: Vec<(String, Coord)> = Vec::new();
    voxels.push((name, Coord::zero()));
    assert(structure_view(voxels@) =~= single_structure(name@));
    voxels
}

fn through() -> (voxels: Vec<(String, Coord)>)
    ensures
        structure_view(voxels@) == through_structure(),
{
    let mut voxels: Vec<(String, Coord)> = Vec::new();
    voxels.push((circuit_voxel("in"), Coord::new(0, 0, 0)));
    voxels.push((circuit_voxel("out"), Coord::new(0, 0, 1)));
    assert(structure_view(voxels@) =~= through_structure());
    voxels
}

fn shell() -> (voxels: Vec<(String, Coord)>)
    ensures
        structure_view(voxels@) == shell_structure(),
{
    let mut voxels: Vec<(String, Coord)> = Vec::new();
    voxels.push((String::from_str("solid-0"), Coord::new(0, 0, 0)));
    voxels.push((String::from_str("solid-1"), Coord::new(-1, 0, 1)));
    voxels.push((String::from_str("solid-2"), Coord::new(1, 0, 1)));
    voxels.push((String::from_str("solid-3"), Coord::new(-1, 0, 0)));
    voxels.push((String::from_str("solid-4"), Coord::new(1, 0, 0)));
    voxels.push((String::from_str("solid-5"), Coord::new(0, 0, -1)));
    voxels.push((circuit_voxel("in_a"), Coord::new(-1, 0, -1)));
    voxels.push((circuit_voxel("in_b"), Coord::new(1, 0, -1)));
    voxels.push((circuit_voxel("out"), Coord::new(0, 0, 1)));
    assert(structure_view(voxels@) =~= shell_structure());
    voxels
}

impl Block {
    /// Which of the shared layouts the block's kind has.
    pub open spec fn layout(self) -> Layout {
        match self {
            Block::Air => Layout::Nothing,
            Block::Block(_) => Layout::Solid,
            Block::Wire(_) | Block::Toggle(_) | Block::Pixel(_) | Block::Clock(_) | Block::Pulse(
                _,
            ) => Layout::Terminal,
            Block::NOTGate(_) | Block::Diode(_) | Block::ToggleLatch(_) | Block::PulseLatch(
                _,
            ) => Layout::Through,
            Block::ANDGate(_) | Block::ORGate(_) | Block::XORGate(_) | Block::NANDGate(_)
            | Block::NORGate(_) | Block::XNORGate(_) | Block::MemoryLatch(_) => Layout::Shell,
        }
    }

    /// The base name of the single terminal of a block with the layout `Terminal`.
    pub open spec fn terminal_base(self) -> Seq<char> {
        match self {
            Block::Wire(_) => "wire"@,
            Block::Toggle(_) => "toggle"@,
            Block::Pixel(_) => "pixel"@,
            Block::Clock(_) => "clock"@,
            _ => "pulse"@,
        }
    }

    /// The voxels that make up the block, each with its local offset.
    pub open spec fn structure(self) -> Structure {
        match self.layout() {
            Layout::Nothing => Seq::empty(),
            Layout::Solid => single_structure("block"@),
            Layout::Terminal => single_structure(terminal_name(self.terminal_base())),
            Layout::Through => through_structure(),
            Layout::Shell => shell_structure(),
        }
    }

    /// The voxels that make up the block once it faces `orientation` and
    /// stands at `position`.
    pub open spec fn global_structure(self, position: Coord, orientation: Orient) -> Structure {
        Seq::new(
            self.structure().len(),
            |i: int| (self.structure()[i].0, orientation.turned(self.structure()[i].1).plus(position)),
        )
    }

    /// Whether the block can stand at `position` facing `orientation`: each of
    /// its voxels then has representable coordinates.
    pub open spec fn stands(self, position: Coord, orientation: Orient) -> bool {
        forall|i: int|
            0 <= i < self.structure().len() ==> #[trigger] orientation.turned(
                self.structure()[i].1,
            ).reaches(position)
    }

    /// The terminals among the voxels of the placed block.
    pub open spec fn global_circuit_voxels(self, position: Coord, orientation: Orient) -> Structure {
        self.global_structure(position, orientation).filter(
            |v: (Seq<char>, Coord)| is_terminal_name(v.0),
        )
    }

    /// The power that the block puts out, for the kinds that put out any.
    pub open spec fn circuit_power(self) -> Option<bool> {
        match self {
            Block::Wire(data) => Some(data.powered),
            Block::Toggle(data) => Some(data.powered),
            Block::ANDGate(data) => Some(data.powered),
            Block::ORGate(data) => Some(data.powered),
            Block::XORGate(data) => Some(data.powered),
            Block::NANDGate(data) => Some(data.powered),
            Block::NORGate(data) => Some(data.powered),
            Block::XNORGate(data) => Some(data.powered),
            Block::NOTGate(data) => Some(data.powered),
            Block::Clock(data) => Some(data.powered),
            Block::Pulse(data) => Some(data.powered),
            Block::Diode(data) => Some(data.powered),
            Block::ToggleLatch(data) => Some(data.powered),
            Block::PulseLatch(data) => Some(data.powered),
            Block::MemoryLatch(data) => Some(data.powered),
            _ => None,
        }
    }

    /// The block's terminals, each with the power that it emits as a source
    /// (`None` for a sink).
    pub open spec fn circuit_voxel_power(self) -> Seq<(Seq<char>, Option<bool>)> {
        match self.layout() {
            Layout::Nothing => Seq::empty(),
            Layout::Solid => Seq::empty(),
            Layout::Terminal => seq![(terminal_name(self.terminal_base()), self.circuit_power())],
            Layout::Through => seq![
                (terminal_name("in"@), None),
                (terminal_name("out"@), self.circuit_power()),
            ],
            Layout::Shell => seq![
                (terminal_name("in_a"@), None),
                (terminal_name("in_b"@), None),
                (terminal_name("out"@), self.circuit_power()),
            ],
        }
    }

    /// Whether the block has a terminal.
    pub open spec fn circuit_block(self) -> bool {
        exists|i: int|
            0 <= i < self.structure().len() && is_terminal_name(#[trigger] self.structure()[i].0)
    }

    /// Whether the terminal `name` of the block is a source that emits power.
    pub open spec fn emits(self, name: Seq<char>) -> bool {
        exists|i: int|
            0 <= i < self.circuit_voxel_power().len() && #[trigger] self.circuit_voxel_power()[i]
                == (name, Some(true))
    }

    /// A block that can tick: a clock only with a rate.
    pub open spec fn timed(self) -> bool {
        match self {
            Block::Clock(data) => data.rate > 0,
            _ => true,
        }
    }

    /// Whether the block can tick.
    pub fn is_timed(&self) -> (b: bool)
        ensures
            b == self.timed(),
    {
        match self {
            Block::Clock(data) => data.rate > 0,
            _ => true,
        }
    }

    /// A block that a scene holds: not air, and a clock only with a rate.
    pub open spec fn sound(self) -> bool {
        !(self is Air) && self.timed()
    }

    /// Whether the two blocks have the same voxels, with the same names at
    /// the same offsets.
    pub fn same_structure(&self, other: &Block) -> (same: bool)
        ensures
            same == (self.structure() == other.structure()),
    {
        proof {
            lemma_structures_differ(*self, *other);
        }
        let layout = self.get_layout();
        if layout != other.get_layout() {
            false
        } else {
            match layout {
                Layout::Terminal => self.get_kind() == other.get_kind(),
                _ => true,
            }
        }
    }

    /// Whether a scene holds such a block.
    pub fn is_sound(&self) -> (b: bool)
        ensures
            b == self.sound(),
    {
        match self {
            Block::Air => false,
            Block::Clock(data) => data.rate > 0,
            _ => true,
        }
    }

    /// The rank of the block's kind in the catalogue.
    pub open spec fn kind(self) -> nat {
        match self {
            Block::Air => 0,
            Block::Wire(_) => 1,
            Block::Block(_) => 2,
            Block::Toggle(_) => 3,
            Block::Pixel(_) => 4,
            Block::ANDGate(_) => 5,
            Block::ORGate(_) => 6,
            Block::XORGate(_) => 7,
            Block::NANDGate(_) => 8,
            Block::NORGate(_) => 9,
            Block::XNORGate(_) => 10,
            Block::NOTGate(_) => 11,
            Block::Diode(_) => 12,
            Block::Clock(_) => 13,
            Block::Pulse(_) => 14,
            Block::ToggleLatch(_) => 15,
            Block::PulseLatch(_) => 16,
            Block::MemoryLatch(_) => 17,
        }
    }

    /// The rank of the block's kind in the catalogue.
    pub fn get_kind(&self) -> (k: u8)
        ensures
            k == self.kind(),
    {
        match self {
            Block::Air => 0,
            Block::Wire(_) => 1,
            Block::Block(_) => 2,
            Block::Toggle(_) => 3,
            Block::Pixel(_) => 4,
            Block::ANDGate(_) => 5,
            Block::ORGate(_) => 6,
            Block::XORGate(_) => 7,
            Block::NANDGate(_) => 8,
            Block::NORGate(_) => 9,
            Block::XNORGate(_) => 10,
            Block::NOTGate(_) => 11,
            Block::Diode(_) => 12,
            Block::Clock(_) => 13,
            Block::Pulse(_) => 14,
            Block::ToggleLatch(_) => 15,
            Block::PulseLatch(_) => 16,
            Block::MemoryLatch(_) => 17,
        }
    }

    /// The terminal whose incoming power is the block's first input: `!pixel`
    /// for a pixel, `!in` for a block with one input, `!in_a` for one with two.
    pub open spec fn first_input(self) -> Option<Seq<char>> {
        match self {
            Block::Pixel(_) => Some(terminal_name("pixel"@)),
            Block::NOTGate(_) | Block::Diode(_) | Block::ToggleLatch(_) | Block::PulseLatch(
                _,
            ) => Some(terminal_name("in"@)),
            Block::ANDGate(_) | Block::ORGate(_) | Block::XORGate(_) | Block::NANDGate(_)
            | Block::NORGate(_) | Block::XNORGate(_) | Block::MemoryLatch(_) => Some(
                terminal_name("in_a"@),
            ),
            _ => None,
        }
    }

    /// The terminal whose incoming power is the block's second input: `!in_b`.
    pub open spec fn second_input(self) -> Option<Seq<char>> {
        match self {
            Block::ANDGate(_) | Block::ORGate(_) | Block::XORGate(_) | Block::NANDGate(_)
            | Block::NORGate(_) | Block::XNORGate(_) | Block::MemoryLatch(_) => Some(
                terminal_name("in_b"@),
            ),
            _ => None,
        }
    }

    /// The block's state after the tick that brings the counter to `now`,
    /// where `a` and `b` tell whether power comes in at its first and at its
    /// second input. A wire, a toggle and a block without terminals stay as
    /// they are. The battery of a pulse latch stops at the greatest `u32`.
    pub open spec fn next(self, now: int, a: bool, b: bool) -> Block {
        match self {
            Block::Pixel(_) => Block::Pixel(VoxelPixel { powered: a }),
            Block::ANDGate(_) => Block::ANDGate(VoxelPowered { powered: a && b }),
            Block::ORGate(_) => Block::ORGate(VoxelPowered { powered: a || b }),
            Block::XORGate(_) => Block::XORGate(VoxelPowered { powered: a != b }),
            Block::NANDGate(_) => Block::NANDGate(VoxelPowered { powered: !(a && b) }),
            Block::NORGate(_) => Block::NORGate(VoxelPowered { powered: !(a || b) }),
            Block::XNORGate(_) => Block::XNORGate(VoxelPowered { powered: a == b }),
            Block::NOTGate(_) => Block::NOTGate(VoxelPowered { powered: !a }),
            Block::Diode(_) => Block::Diode(VoxelPowered { powered: a }),
            Block::Clock(data) => Block::Clock(
                VoxelClock {
                    rate: data.rate,
                    start_tick: data.start_tick,
                    powered: data.start_tick <= now && (now - data.start_tick) % (data.rate as int)
                        == 0,
                },
            ),
            Block::Pulse(data) => Block::Pulse(
                VoxelPulse {
                    start_tick: data.start_tick,
                    pulse_ticks: data.pulse_ticks,
                    powered: data.start_tick + data.pulse_ticks >= now,
                },
            ),
            Block::ToggleLatch(data) => Block::ToggleLatch(
                VoxelMemory { stored: data.stored != (a && !data.powered), powered: a },
            ),
            Block::PulseLatch(data) => {
                let left: int = if data.pulse_battery > 0 {
                    data.pulse_battery - 1
                } else {
                    0
                };
                let charge: int = left + if a {
                    data.pulse_ticks as int
                } else {
                    0
                };
                let battery: u32 = if charge > u32::MAX {
                    u32::MAX
                } else {
                    charge as u32
                };
                Block::PulseLatch(
                    VoxelPulseLatch {
                        pulse_ticks: data.pulse_ticks,
                        pulse_battery: battery,
                        powered: battery > 0,
                    },
                )
            },
            Block::MemoryLatch(data) => {
                let stored = if a == b {
                    data.stored
                } else {
                    a
                };
                Block::MemoryLatch(VoxelMemory { stored, powered: stored })
            },
            _ => self,
        }
    }

    /// Computes the block's state after the tick that brings the counter to `now`.
    pub fn advance(&self, now: u32, a: bool, b: bool) -> (after: Block)
        requires
            self.sound(),
        ensures
            after == self.next(now as int, a, b),
            after.kind() == self.kind(),
            after.sound(),
    {
        match self {
            Block::Pixel(_) => Block::Pixel(VoxelPixel { powered: a }),
            Block::ANDGate(_) => Block::ANDGate(VoxelPowered { powered: a && b }),
            Block::ORGate(_) => Block::ORGate(VoxelPowered { powered: a || b }),
            Block::XORGate(_) => Block::XORGate(VoxelPowered { powered: a != b }),
            Block::NANDGate(_) => Block::NANDGate(VoxelPowered { powered: !(a && b) }),
            Block::NORGate(_) => Block::NORGate(VoxelPowered { powered: !(a || b) }),
            Block::XNORGate(_) => Block::XNORGate(VoxelPowered { powered: a == b }),
            Block::NOTGate(_) => Block::NOTGate(VoxelPowered { powered: !a }),
            Block::Diode(_) => Block::Diode(VoxelPowered { powered: a }),
            Block::Clock(data) => {
                let powered = if data.start_tick > now {
                    false
                } else {
                    (now - data.start_tick) % data.rate == 0
                };
                Block::Clock(
                    VoxelClock { rate: data.rate, start_tick: data.start_tick, powered },
                )
            },
            Block::Pulse(data) => {
                let powered = data.start_tick as u64 + data.pulse_ticks as u64 >= now as u64;
                Block::Pulse(
                    VoxelPulse {
                        start_tick: data.start_tick,
                        pulse_ticks: data.pulse_ticks,
                        powered,
                    },
                )
            },
            Block::ToggleLatch(data) => {
                let stored = if a && !data.powered {
                    !data.stored
                } else {
                    data.stored
                };
                Block::ToggleLatch(VoxelMemory { stored, powered: a })
            },
            Block::PulseLatch(data) => {
                let left: u32 = if data.pulse_battery > 0 {
                    data.pulse_battery - 1
                } else {
                    0
                };
                let gain: u32 = if a {
                    data.pulse_ticks
                } else {
                    0
                };
                let battery: u32 = match left.checked_add(gain) {
                    Some(sum) => sum,
                    None => u32::MAX,
                };
                Block::PulseLatch(
                    VoxelPulseLatch {
                        pulse_ticks: data.pulse_ticks,
                        pulse_battery: battery,
                        powered: battery > 0,
                    },
                )
            },
            Block::MemoryLatch(data) => {
                let stored = if a == b {
                    data.stored
                } else {
                    a
                };
                Block::MemoryLatch(VoxelMemory { stored, powered: stored })
            },
            Block::Air => Block::Air,
            Block::Wire(data) => Block::Wire(*data),
            Block::Block(data) => Block::Block(*data),
            Block::Toggle(data) => Block::Toggle(*data),
        }
    }

    fn get_layout(&self) -> (l: Layout)
        ensures
            l == self.layout(),
    {
        match self {
            Block::Air => Layout::Nothing,
            Block::Block(_) => Layout::Solid,
            Block::Wire(_) | Block::Toggle(_) | Block::Pixel(_) | Block::Clock(_) | Block::Pulse(
                _,
            ) => Layout::Terminal,
            Block::NOTGate(_) | Block::Diode(_) | Block::ToggleLatch(_) | Block::PulseLatch(
                _,
            ) => Layout::Through,
            Block::ANDGate(_) | Block::ORGate(_) | Block::XORGate(_) | Block::NANDGate(_)
            | Block::NORGate(_) | Block::XNORGate(_) | Block::MemoryLatch(_) => Layout::Shell,
        }
    }

    fn get_terminal(&self) -> (id: String)
        ensures
            id@ == terminal_name(self.terminal_base()),
    {
        match self {
            Block::Wire(_) => circuit_voxel("wire"),
            Block::Toggle(_) => circuit_voxel("toggle"),
            Block::Pixel(_) => circuit_voxel("pixel"),
            Block::Clock(_) => circuit_voxel("clock"),
            _ => circuit_voxel("pulse"),
        }
    }

    /// Get this block's power state and independence by voxel (returns value only if applicable)
    pub fn get_circuit_voxel_power(&self) -> (terminals: Vec<(VoxelID, Option<PowerState>)>)
        ensures
            powers_view(terminals@) == self.circuit_voxel_power(),
    {
        let mut terminals: Vec<(String, Option<bool>)> = Vec::new();
        match self.get_layout() {
            Layout::Nothing => {},
            Layout::Solid => {},
            Layout::Terminal => {
                terminals.push((self.get_terminal(), self.get_circuit_power()));
            },
            Layout::Through => {
                terminals.push((circuit_voxel("in"), None));
                terminals.push((circuit_voxel("out"), self.get_circuit_power()));
            },
            Layout::Shell => {
                terminals.push((circuit_voxel("in_a"), None));
                terminals.push((circuit_voxel("in_b"), None));
                terminals.push((circuit_voxel("out"), self.get_circuit_power()));
            },
        }
        assert(powers_view(terminals@) =~= self.circuit_voxel_power());
        terminals
    }

    /// Get this block's power state (returns value only if applicable)
    pub fn get_circuit_power(&self) -> (power: Option<PowerState>)
        ensures
            power == self.circuit_power(),
    {
        match self {
            Block::Wire(data) => Some(data.powered),
            Block::Toggle(data) => Some(data.powered),
            Block::ANDGate(data) => Some(data.powered),
            Block::ORGate(data) => Some(data.powered),
            Block::XORGate(data) => Some(data.powered),
            Block::NANDGate(data) => Some(data.powered),
            Block::NORGate(data) => Some(data.powered),
            Block::XNORGate(data) => Some(data.powered),
            Block::NOTGate(data) => Some(data.powered),
            Block::Clock(data) => Some(data.powered),
            Block::Pulse(data) => Some(data.powered),
            Block::Diode(data) => Some(data.powered),
            Block::ToggleLatch(data) => Some(data.powered),
            Block::PulseLatch(data) => Some(data.powered),
            Block::MemoryLatch(data) => Some(data.powered),
            _ => None,
        }
    }

    /// Whether the block can stand at `position` facing `orientation`.
    pub fn can_stand(&self, position: Coord, orientation: Orient) -> (b: bool)
        ensures
            b == self.stands(position, orientation),
    {
        // away from the edge of the grid every block can stand
        if position.is_interior() {
            proof {
                lemma_interior_stands(*self, position, orientation);
            }
            return true;
        }
        let local = self.get_structure();
        proof {
            lemma_offsets_small(*self);
        }
        let mut i: usize = 0;
        while i < local.len()
            invariant
                i <= local.len(),
                structure_view(local@) == self.structure(),
                offsets_small(self.structure()),
                forall|j: int|
                    0 <= j < i ==> #[trigger] orientation.turned(self.structure()[j].1).reaches(
                        position,
                    ),
            decreases local.len() - i,
        {
            assert(structure_view(local@)[i as int] == (local@[i as int].0@, local@[i as int].1));
            assert(small(self.structure()[i as int].1));
            let turned = orientation.turn(local[i].1);
            if turned.checked_plus(&position).is_none() {
                assert(!orientation.turned(self.structure()[i as int].1).reaches(position));
                return false;
            }
            i = i + 1;
        }
        true
    }

    /// Get all of the circuit voxels (global) belonging to this block
    pub fn get_global_circuit_voxels(&self, position: Coord, orientation: Orient) -> (terminals:
        Vec<(VoxelID, Coord)>)
        requires
            self.stands(position, orientation),
        ensures
            structure_view(terminals@) == self.global_circuit_voxels(position, orientation),
    {
        let voxels = self.get_global_structure(position, orientation);
        let ghost all = structure_view(voxels@);
        let ghost pred = |v: (Seq<char>, Coord)| is_terminal_name(v.0);
        let mut terminals: Vec<(String, Coord)> = Vec::new();
        let mut i: usize = 0;
        while i < voxels.len()
            invariant
                i <= voxels.len(),
                all == structure_view(voxels@),
                pred == |v: (Seq<char>, Coord)| is_terminal_name(v.0),
                structure_view(terminals@) == all.take(i as int).filter(pred),
            decreases voxels.len() - i,
        {
            let ghost before = structure_view(terminals@);
            proof {
                assert(all.take(i + 1) =~= all.take(i as int).push(all[i as int]));
                all.take(i as int).lemma_filter_push(all[i as int], pred);
            }
            if is_circuit_voxel(voxels[i].0.as_str()) {
                terminals.push((voxels[i].0.clone(), voxels[i].1));
                assert(structure_view(terminals@) =~= before.push(all[i as int]));
            }
            i = i + 1;
        }
        assert(all.take(voxels.len() as int) =~= all);
        terminals
    }

    /// Return true if the block is a circuit block (i.e. has at least one circuit voxel)
    pub fn is_circuit_block(&self) -> (b: bool)
        ensures
            b == self.circuit_block(),
    {
        let voxels = self.get_structure();
        let mut i: usize = 0;
        while i < voxels.len()
            invariant
                i <= voxels.len(),
                structure_view(voxels@) == self.structure(),
                forall|j: int| 0 <= j < i ==> !is_terminal_name(#[trigger] self.structure()[j].0),
            decreases voxels.len() - i,
        {
            assert(structure_view(voxels@)[i as int].0 == voxels@[i as int].0@);
            if is_circuit_voxel(voxels[i].0.as_str()) {
                return true;
            }
            i = i + 1;
        }
        false
    }

    /// Return the voxels that make up the block, adjusted to contain global coordinates
    pub fn get_global_structure(&self, position: Coord, orientation: Orient) -> (voxels: Vec<
        (VoxelID, Coord),
    >)
        requires
            self.stands(position, orientation),
        ensures
            structure_view(voxels@) == self.global_structure(position, orientation),
    {
        let local = self.get_structure();
        let mut voxels: Vec<(String, Coord)> = Vec::new();
        let mut i: usize = 0;
        proof {
            lemma_offsets_small(*self);
        }
        while i < local.len()
            invariant
                i <= local.len(),
                self.stands(position, orientation),
                structure_view(local@) == self.structure(),
                offsets_small(self.structure()),
                voxels@.len() == i,
                forall|j: int|
                    0 <= j < i ==> #[trigger] structure_view(voxels@)[j] == self.global_structure(
                        position,
                        orientation,
                    )[j],
            decreases local.len() - i,
        {
            let ghost before = structure_view(voxels@);
            assert(structure_view(local@)[i as int] == (local@[i as int].0@, local@[i as int].1));
            assert(small(self.structure()[i as int].1));
            assert(orientation.turned(self.structure()[i as int].1).reaches(position));
            let turned = orientation.turn(local[i].1);
            let placed = Coord {
                x: turned.x + position.x,
                y: turned.y + position.y,
                z: turned.z + position.z,
            };
            voxels.push((local[i].0.clone(), placed));
            proof {
                let after = structure_view(voxels@);
                assert forall|j: int| 0 <= j < i + 1 implies #[trigger] after[j]
                    == self.global_structure(position, orientation)[j] by {
                    if j < i {
                        assert(after[j] == before[j]);
                    }
                }
            }
            i = i + 1;
        }
        assert(structure_view(voxels@) =~= self.global_structure(position, orientation));
        voxels
    }

    /// Return the voxels that make up the block
    ///
    /// Voxels whose names start with an exclamation are considered as part of the circuit
    pub fn get_structure(&self) -> (voxels: Vec<(VoxelID, Coord)>)
        ensures
            structure_view(voxels@) == self.structure(),
    {
        match self.get_layout() {
            Layout::Nothing => {
                let voxels: Vec<(String, Coord)> = Vec::new();
                assert(structure_view(voxels@) =~= self.structure());
                voxels
            },
            Layout::Solid => single(String::from_str("block")),
            Layout::Terminal => single(self.get_terminal()),
            Layout::Through => through(),
            Layout::Shell => shell(),
        }
    }

    /// Whether the terminal `name` of this block is a source that emits power.
    pub fn voxel_emits(&self, name: &String) -> (b: bool)
        ensures
            b == self.emits(name@),
    {
        let terminals = self.get_circuit_voxel_power();
        let mut i: usize = 0;
        while i < terminals.len()
            invariant
                i <= terminals.len(),
                powers_view(terminals@) == self.circuit_voxel_power(),
                forall|j: int|
                    0 <= j < i ==> #[trigger] self.circuit_voxel_power()[j] != (name@, Some(true)),
            decreases terminals.len() - i,
        {
            assert(powers_view(terminals@)[i as int] == (
                terminals@[i as int].0@,
                terminals@[i as int].1,
            ));
            if terminals[i].0 == *name {
                match terminals[i].1 {
                    Some(true) => {
                        return true;
                    },
                    _ => {},
                }
            }
            i = i + 1;
        }
        false
    }
}

/// Every component of the offset is -1, 0 or 1.
pub open spec fn small(c: Coord) -> bool {
    -1 <= c.x <= 1 && -1 <= c.y <= 1 && -1 <= c.z <= 1
}

/// Every voxel of the structure lies within one step of the origin along each axis.
pub open spec fn offsets_small(s: Structure) -> bool {
    forall|i: int| 0 <= i < s.len() ==> small(#[trigger] s[i].1)
}

/// The local offsets of every block kind are small, and no two voxels of a
/// block share one.
pub proof fn lemma_offsets_small(b: Block)
    ensures
        offsets_small(b.structure()),
        places_distinct(b.structure()),
        b.structure().len() <= 9,
{
}

/// A block can stand wherever a step of one along any axis stays representable.
pub proof fn lemma_interior_stands(b: Block, position: Coord, orientation: Orient)
    requires
        position.interior(),
    ensures
        b.stands(position, orientation),
{
    lemma_offsets_small(b);
    assert forall|i: int| 0 <= i < b.structure().len() implies #[trigger] orientation.turned(
        b.structure()[i].1,
    ).reaches(position) by {
        assert(small(b.structure()[i].1));
    }
}

/// Two blocks have the same structure exactly where they have the same
/// layout and, with a single terminal, the same kind.
pub proof fn lemma_structures_differ(a: Block, b: Block)
    ensures
        (a.structure() == b.structure()) == (a.layout() == b.layout() && (a.layout()
            == Layout::Terminal ==> a.kind() == b.kind())),
        a.structure() == b.structure() ==> (a is Wire) == (b is Wire),
        a.structure() == b.structure() ==> (a is Air) == (b is Air),
{
    reveal_strlit("block");
    reveal_strlit("wire");
    reveal_strlit("toggle");
    reveal_strlit("pixel");
    reveal_strlit("clock");
    reveal_strlit("pulse");
    let s = a.structure();
    let t = b.structure();
    if a.layout() != b.layout() {
        if s.len() == t.len() {
            assert(s.len() == 1);
            assert(s[0].0[0] != t[0].0[0]);
        }
    } else if a.layout() == Layout::Terminal {
        if a.kind() != b.kind() {
            let x = a.terminal_base();
            let y = b.terminal_base();
            assert(x.len() != y.len() || x[0] != y[0] || x[1] != y[1]);
            if s == t {
                assert(s[0].0 == t[0].0);
                assert(s[0].0.len() == x.len() + 1);
                assert(t[0].0.len() == y.len() + 1);
                assert(s[0].0[1] == x[0] && t[0].0[1] == y[0]);
                assert(s[0].0[2] == x[1] && t[0].0[2] == y[1]);
            }
        } else {
            assert(a.terminal_base() == b.terminal_base());
        }
    }
}

/// The marks of the voxel names that the catalogue uses.
pub proof fn lemma_name_marks()
    ensures
        name_mark("block"@) == (5nat, 'l', 'k'),
        name_mark("solid-0"@) == (7nat, 'o', '0'),
        name_mark("solid-1"@) == (7nat, 'o', '1'),
        name_mark("solid-2"@) == (7nat, 'o', '2'),
        name_mark("solid-3"@) == (7nat, 'o', '3'),
        name_mark("solid-4"@) == (7nat, 'o', '4'),
        name_mark("solid-5"@) == (7nat, 'o', '5'),
        name_mark(terminal_name("in_a"@)) == (5nat, 'i', 'a'),
        name_mark(terminal_name("in_b"@)) == (5nat, 'i', 'b'),
        name_mark(terminal_name("out"@)) == (4nat, 'o', 't'),
        name_mark(terminal_name("in"@)) == (3nat, 'i', 'n'),
        "block"@[0] == 'b',
        "solid-0"@[0] == 's',
        "solid-1"@[0] == 's',
        "solid-2"@[0] == 's',
        "solid-3"@[0] == 's',
        "solid-4"@[0] == 's',
        "solid-5"@[0] == 's',
{
    reveal_strlit("block");
    reveal_strlit("solid-0");
    reveal_strlit("solid-1");
    reveal_strlit("solid-2");
    reveal_strlit("solid-3");
    reveal_strlit("solid-4");
    reveal_strlit("solid-5");
    reveal_strlit("in_a");
    reveal_strlit("in_b");
    reveal_strlit("out");
    reveal_strlit("in");
}

/// Where a voxel name with the mark `m` stands in the structure with a shell.
pub open spec fn shell_rank(m: (nat, char, char)) -> int {
    if m.2 == '0' {
        0
    } else if m.2 == '1' {
        1
    } else if m.2 == '2' {
        2
    } else if m.2 == '3' {
        3
    } else if m.2 == '4' {
        4
    } else if m.2 == '5' {
        5
    } else if m.2 == 'a' {
        6
    } else if m.2 == 'b' {
        7
    } else {
        8
    }
}

/// No two voxels of a block share a name.
pub proof fn lemma_names_distinct(b: Block)
    ensures
        names_distinct(b.structure()),
{
    lemma_name_marks();
    let s = b.structure();
    match b.layout() {
        Layout::Through => {
            assert(name_mark(s[0].0) != name_mark(s[1].0));
        },
        Layout::Shell => {
            assert forall|k: int| 0 <= k < s.len() implies shell_rank(
                name_mark(#[trigger] s[k].0),
            ) == k by {
                assert(s == shell_structure());
                if k == 0 {
                } else if k == 1 {
                } else if k == 2 {
                } else if k == 3 {
                } else if k == 4 {
                } else if k == 5 {
                } else if k == 6 {
                } else if k == 7 {
                } else {
                }
            }
        },
        _ => {},
    }
}

/// Which voxels of each layout are terminals.
pub proof fn lemma_terminals(b: Block)
    ensures
        b.layout() == Layout::Solid ==> !is_terminal_name(b.structure()[0].0),
        b.layout() == Layout::Terminal ==> is_terminal_name(b.structure()[0].0),
        b.layout() == Layout::Through ==> is_terminal_name(b.structure()[0].0) && is_terminal_name(
            b.structure()[1].0,
        ),
        b.layout() == Layout::Shell ==> forall|k: int|
            0 <= k < 9 ==> (is_terminal_name(#[trigger] b.structure()[k].0) <==> k >= 6),
{
    lemma_name_marks();
    let s = b.structure();
    if b.layout() == Layout::Shell {
        assert forall|k: int| 0 <= k < 9 implies (is_terminal_name(#[trigger] s[k].0) <==> k
            >= 6) by {
            assert(s == shell_structure());
            if k == 0 {
            } else if k == 1 {
            } else if k == 2 {
            } else if k == 3 {
            } else if k == 4 {
            } else if k == 5 {
            } else if k == 6 {
            } else if k == 7 {
            } else {
            }
        }
    }
}

/// A voxel is a terminal exactly where the catalogue lists a power projection
/// for it, in the same order.
pub proof fn lemma_structure_names(b: Block)
    ensures
        b.structure().filter(|v: (Seq<char>, Coord)| is_terminal_name(v.0)).len()
            == b.circuit_voxel_power().len(),
        forall|i: int|
            0 <= i < b.circuit_voxel_power().len() ==> (#[trigger] b.circuit_voxel_power()[i]).0
                == b.structure().filter(|v: (Seq<char>, Coord)| is_terminal_name(v.0))[i].0,
{
    lemma_terminals(b);
    let s = b.structure();
    let pred = |v: (Seq<char>, Coord)| is_terminal_name(v.0);
    match b.layout() {
        Layout::Nothing => {
            assert(s.filter(pred) =~= Seq::empty()) by {
                reveal(Seq::filter);
            }
        },
        Layout::Solid => {
            s.lemma_all_neg_filter_empty(pred);
        },
        Layout::Terminal => {
            lemma_filter_all(s, pred);
        },
        Layout::Through => {
            lemma_filter_all(s, pred);
        },
        Layout::Shell => {
            lemma_shell_terminals(b);
            assert(s.skip(6).len() == 3);
            assert(s.skip(6)[0] == s[6]);
            assert(s.skip(6)[1] == s[7]);
            assert(s.skip(6)[2] == s[8]);
        },
    }
}

/// The terminals of a block with a shell are its last three voxels.
pub proof fn lemma_shell_terminals(b: Block)
    requires
        b.layout() == Layout::Shell,
    ensures
        b.structure().filter(|v: (Seq<char>, Coord)| is_terminal_name(v.0)) == b.structure().skip(
            6,
        ),
{
    lemma_terminals(b);
    let s = b.structure();
    let pred = |v: (Seq<char>, Coord)| is_terminal_name(v.0);
    let front = s.take(6);
    let back = s.skip(6);
    assert(s =~= front + back);
    Seq::filter_distributes_over_add(front, back, pred);
    assert forall|i: int| 0 <= i < back.len() implies pred(#[trigger] back[i]) by {
        assert(back[i] == s[i + 6]);
        assert(is_terminal_name(s[i + 6].0));
    }
    lemma_filter_all(back, pred);
    assert forall|i: int| 0 <= i < front.len() implies !pred(#[trigger] front[i]) by {
        assert(front[i] == s[i]);
        assert(!is_terminal_name(s[i].0));
    }
    front.lemma_all_neg_filter_empty(pred);
    assert(front.filter(pred) + back =~= back);
}

/// A sequence whose elements all satisfy the predicate is its own filter.
pub proof fn lemma_filter_all<A>(s: Seq<A>, pred: spec_fn(A) -> bool)
    requires
        forall|i: int| 0 <= i < s.len() ==> pred(#[trigger] s[i]),
    ensures
        s.filter(pred) == s,
    decreases s.len(),
{
    reveal(Seq::filter);
    if s.len() > 0 {
        lemma_filter_all(s.drop_last(), pred);
        assert(s.drop_last().push(s.last()) =~= s);
    }
}

} // verus!
