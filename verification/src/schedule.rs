//! When the systems of the bridge run within a frame.
//!
//! A frame goes through its stages in a fixed order. In the first stage the
//! events of the frame are made: what fills the event streams runs before
//! the streams are turned over, what reads them runs after. The plugins say
//! which systems they bring; the runtime lets each run at its place.
use vstd::prelude::*;

verus! {

/// The stages of a frame, in the order in which they run. `PreStartup` runs
/// once, before the first frame.
#[derive(Clone, Copy, Debug, PartialEq, Eq, Structural)]
pub enum Stage {
    PreStartup,
    First,
    PreUpdate,
    Update,
    PostUpdate,
}

/// When a system runs within its stage, seen from the moment at which the
/// event streams of the frame are turned over.
#[derive(Clone, Copy, Debug, PartialEq, Eq, Structural)]
pub enum Turn {
    BeforeEvents,
    Free,
    AfterEvents,
}

/// The systems of the bridge.
#[derive(Clone, Copy, Debug, PartialEq, Eq, Structural)]
pub enum System {
    /// Walks the scene tree and fills the mirror.
    InitializeSceneTree,
    /// Has the engine tell of nodes that come, go and change their names.
    ConnectSceneTree,
    /// Drains the notices of the scene tree into the events of the frame.
    WriteSceneTreeEvents,
    /// Takes the notices of the frame up into the mirror.
    ReadSceneTreeEvents,
    /// Drains the contact events into the events of the frame.
    WriteCollisionEvents,
    /// Drains the signals into the events of the frame.
    WriteSignalEvents,
    /// Drains the input events into the events of the frame.
    WriteInputEvents,
    /// The bookkeeping of contacts.
    UpdateCollisions,
    /// Pulls the transforms in space from the engine.
    PreUpdateTransforms,
    /// Pulls the transforms in the plane from the engine.
    PreUpdateTransforms2D,
    /// Pushes the transforms in space to the engine.
    PostUpdateTransforms,
    /// Pushes the transforms in the plane to the engine.
    PostUpdateTransforms2D,
    /// Puts packed scenes into the scene tree.
    SpawnScene,
}

impl Stage {
    /// The place of the stage in the frame.
    pub open spec fn rank(self) -> int {
        match self {
            Stage::PreStartup => 0,
            Stage::First => 1,
            Stage::PreUpdate => 2,
            Stage::Update => 3,
            Stage::PostUpdate => 4,
        }
    }
}

impl Turn {
    /// The place of the turn in its stage.
    pub open spec fn rank(self) -> int {
        match self {
            Turn::BeforeEvents => 0,
            Turn::Free => 1,
            Turn::AfterEvents => 2,
        }
    }
}

impl System {
    /// The stage in which the system runs.
    pub open spec fn spec_stage(self) -> Stage {
        match self {
            System::InitializeSceneTree | System::ConnectSceneTree => Stage::PreStartup,
            System::WriteSceneTreeEvents
            | System::ReadSceneTreeEvents
            | System::WriteCollisionEvents
            | System::WriteSignalEvents
            | System::WriteInputEvents => Stage::First,
            System::UpdateCollisions
            | System::PreUpdateTransforms
            | System::PreUpdateTransforms2D => Stage::PreUpdate,
            System::PostUpdateTransforms
            | System::PostUpdateTransforms2D
            | System::SpawnScene => Stage::PostUpdate,
        }
    }

    /// The turn of the system within its stage.
    pub open spec fn spec_turn(self) -> Turn {
        match self {
            System::WriteSceneTreeEvents
            | System::WriteCollisionEvents
            | System::WriteSignalEvents
            | System::WriteInputEvents => Turn::BeforeEvents,
            System::ReadSceneTreeEvents => Turn::AfterEvents,
            _ => Turn::Free,
        }
    }

    /// Whether this system has run when `later` starts, in every frame.
    pub open spec fn runs_before(self, later: System) -> bool {
        ||| self.spec_stage().rank() < later.spec_stage().rank()
        ||| (self.spec_stage() == later.spec_stage() && self.spec_turn().rank()
            < later.spec_turn().rank())
    }

    /// Whether this system has run when the logic of the game starts, which
    /// runs in the stage `Update`.
    pub open spec fn runs_before_game(self) -> bool {
        self.spec_stage().rank() < Stage::Update.rank()
    }

    /// Whether this system starts when the logic of the game has run.
    pub open spec fn runs_after_game(self) -> bool {
        Stage::Update.rank() < self.spec_stage().rank()
    }

    /// The stage in which the system runs.
    #[verifier::when_used_as_spec(spec_stage)]
    pub fn stage(self) -> (stage: Stage)
        ensures
            stage == self.spec_stage(),
    {
        match self {
            System::InitializeSceneTree | System::ConnectSceneTree => Stage::PreStartup,
            System::WriteSceneTreeEvents
            | System::ReadSceneTreeEvents
            | System::WriteCollisionEvents
            | System::WriteSignalEvents
            | System::WriteInputEvents => Stage::First,
            System::UpdateCollisions
            | System::PreUpdateTransforms
            | System::PreUpdateTransforms2D => Stage::PreUpdate,
            System::PostUpdateTransforms
            | System::PostUpdateTransforms2D
            | System::SpawnScene => Stage::PostUpdate,
        }
    }

    /// The turn of the system within its stage.
    #[verifier::when_used_as_spec(spec_turn)]
    pub fn turn(self) -> (turn: Turn)
        ensures
            turn == self.spec_turn(),
    {
        match self {
            System::WriteSceneTreeEvents
            | System::WriteCollisionEvents
            | System::WriteSignalEvents
            | System::WriteInputEvents => Turn::BeforeEvents,
            System::ReadSceneTreeEvents => Turn::AfterEvents,
            _ => Turn::Free,
        }
    }
}

/// The systems that an application runs, in the order in which the plugins
/// brought them.
#[derive(Debug)]
pub struct Schedule {
    systems: Vec<System>,
}

impl View for Schedule {
    type V = Seq<System>;

    closed spec fn view(&self) -> Seq<System> {
        self.systems@
    }
}

impl Schedule {
    /// The schedule without a system.
    pub fn new() -> (schedule: Self)
        ensures
            schedule@ == Seq::<System>::empty(),
    {
        Schedule { systems: Vec::new() }
    }

    /// Puts a system behind those that are there.
    pub fn add_system(&mut self, system: System)
        ensures
            final(self)@ == old(self)@.push(system),
    {
        self.systems.push(system);
    }

    /// The systems, in the order in which they were brought.
    pub fn systems(&self) -> (systems: &[System])
        ensures
            systems@ == self@,
    {
        self.systems.as_slice()
    }
}

/// Keeps the mirror of the scene tree.
#[derive(Clone, Copy, Debug, Default)]
pub struct GodotSceneTreePlugin;

/// Keeps the transforms of mirror and engine alike.
#[derive(Clone, Copy, Debug, Default)]
pub struct GodotTransformsPlugin;

/// Keeps the contacts of the bodies.
#[derive(Clone, Copy, Debug, Default)]
pub struct GodotCollisionsPlugin;

/// Brings the signals of the engine into the frame.
#[derive(Clone, Copy, Debug, Default)]
pub struct GodotSignalsPlugin;

/// Brings the input events of the engine into the frame.
#[derive(Clone, Copy, Debug, Default)]
pub struct GodotInputEventPlugin;

/// Puts packed scenes into the scene tree.
#[derive(Clone, Copy, Debug, Default)]
pub struct PackedScenePlugin;

/// The plugins that make the core of the bridge.
#[derive(Clone, Copy, Debug, Default)]
pub struct GodotCorePlugin;

/// Everything that the bridge brings.
#[derive(Clone, Copy, Debug, Default)]
pub struct DefaultGodotPlugin;

/// The bridge as one plugin.
#[derive(Clone, Copy, Debug, Default)]
pub struct GodotPlugin;

impl GodotSceneTreePlugin {
    /// The systems that the plugin brings.
    pub open spec fn systems() -> Seq<System> {
        seq![
            System::InitializeSceneTree,
            System::ConnectSceneTree,
            System::WriteSceneTreeEvents,
            System::ReadSceneTreeEvents,
        ]
    }

    /// Brings the systems of the plugin.
    pub fn build(&self, schedule: &mut Schedule)
        ensures
            final(schedule)@ == old(schedule)@ + Self::systems(),
    {
        schedule.add_system(System::InitializeSceneTree);
        schedule.add_system(System::ConnectSceneTree);
        schedule.add_system(System::WriteSceneTreeEvents);
        schedule.add_system(System::ReadSceneTreeEvents);
        assert(schedule@ =~= old(schedule)@ + Self::systems());
    }
}

impl GodotTransformsPlugin {
    /// The systems that the plugin brings.
    pub open spec fn systems() -> Seq<System> {
        seq![
            System::PostUpdateTransforms,
            System::PreUpdateTransforms,
            System::PostUpdateTransforms2D,
            System::PreUpdateTransforms2D,
        ]
    }

    /// Brings the systems of the plugin.
    pub fn build(&self, schedule: &mut Schedule)
        ensures
            final(schedule)@ == old(schedule)@ + Self::systems(),
    {
        schedule.add_system(System::PostUpdateTransforms);
        schedule.add_system(System::PreUpdateTransforms);
        schedule.add_system(System::PostUpdateTransforms2D);
        schedule.add_system(System::PreUpdateTransforms2D);
        assert(schedule@ =~= old(schedule)@ + Self::systems());
    }
}

impl GodotCollisionsPlugin {
    /// The systems that the plugin brings.
    pub open spec fn systems() -> Seq<System> {
        seq![System::UpdateCollisions, System::WriteCollisionEvents]
    }

    /// Brings the systems of the plugin.
    pub fn build(&self, schedule: &mut Schedule)
        ensures
            final(schedule)@ == old(schedule)@ + Self::systems(),
    {
        schedule.add_system(System::UpdateCollisions);
        schedule.add_system(System::WriteCollisionEvents);
        assert(schedule@ =~= old(schedule)@ + Self::systems());
    }
}

impl GodotSignalsPlugin {
    /// The systems that the plugin brings.
    pub open spec fn systems() -> Seq<System> {
        seq![System::WriteSignalEvents]
    }

    /// Brings the systems of the plugin.
    pub fn build(&self, schedule: &mut Schedule)
        ensures
            final(schedule)@ == old(schedule)@ + Self::systems(),
    {
        schedule.add_system(System::WriteSignalEvents);
        assert(schedule@ =~= old(schedule)@ + Self::systems());
    }
}

impl GodotInputEventPlugin {
    /// The systems that the plugin brings.
    pub open spec fn systems() -> Seq<System> {
        seq![System::WriteInputEvents]
    }

    /// Brings the systems of the plugin.
    pub fn build(&self, schedule: &mut Schedule)
        ensures
            final(schedule)@ == old(schedule)@ + Self::systems(),
    {
        schedule.add_system(System::WriteInputEvents);
        assert(schedule@ =~= old(schedule)@ + Self::systems());
    }
}

impl PackedScenePlugin {
    /// The systems that the plugin brings.
    pub open spec fn systems() -> Seq<System> {
        seq![System::SpawnScene]
    }

    /// Brings the systems of the plugin.
    pub fn build(&self, schedule: &mut Schedule)
        ensures
            final(schedule)@ == old(schedule)@ + Self::systems(),
    {
        schedule.add_system(System::SpawnScene);
        assert(schedule@ =~= old(schedule)@ + Self::systems());
    }
}

impl GodotCorePlugin {
    /// The systems that the plugin brings: those of the plugins for the
    /// scene tree, the transforms, the contacts, the signals and the input.
    pub open spec fn systems() -> Seq<System> {
        GodotSceneTreePlugin::systems() + GodotTransformsPlugin::systems()
            + GodotCollisionsPlugin::systems() + GodotSignalsPlugin::systems()
            + GodotInputEventPlugin::systems()
    }

    /// Brings the systems of the plugin.
    pub fn build(&self, schedule: &mut Schedule)
        ensures
            final(schedule)@ == old(schedule)@ + Self::systems(),
    {
        GodotSceneTreePlugin.build(schedule);
        GodotTransformsPlugin.build(schedule);
        GodotCollisionsPlugin.build(schedule);
        GodotSignalsPlugin.build(schedule);
        GodotInputEventPlugin.build(schedule);
        assert(schedule@ =~= old(schedule)@ + Self::systems());
    }
}

impl DefaultGodotPlugin {
    /// The systems that the plugin brings: those of the core and the one for
    /// packed scenes.
    pub open spec fn systems() -> Seq<System> {
        GodotCorePlugin::systems() + PackedScenePlugin::systems()
    }

    /// Brings the systems of the plugin.
    pub fn build(&self, schedule: &mut Schedule)
        ensures
            final(schedule)@ == old(schedule)@ + Self::systems(),
    {
        GodotCorePlugin.build(schedule);
        PackedScenePlugin.build(schedule);
        assert(schedule@ =~= old(schedule)@ + Self::systems());
    }
}

impl GodotPlugin {
    /// Brings every system of the bridge.
    pub fn build(&self, schedule: &mut Schedule)
        ensures
            final(schedule)@ == old(schedule)@ + DefaultGodotPlugin::systems(),
    {
        DefaultGodotPlugin.build(schedule);
    }
}

/// The order of a frame.
///
/// Whatever the engine told before the frame is in the events of the frame
/// before anything reads them: every queue is drained before the mirror
/// takes the notices up, and the mirror has taken them up before the
/// contacts are counted and before a transform is pulled. The transforms
/// are pulled before the logic of the game runs, and pushed after it.
pub proof fn lemma_frame_order()
    ensures
        System::WriteSceneTreeEvents.runs_before(System::ReadSceneTreeEvents),
        System::WriteCollisionEvents.runs_before(System::UpdateCollisions),
        System::ReadSceneTreeEvents.runs_before(System::UpdateCollisions),
        System::ReadSceneTreeEvents.runs_before(System::PreUpdateTransforms),
        System::ReadSceneTreeEvents.runs_before(System::PreUpdateTransforms2D),
        System::WriteSignalEvents.runs_before_game(),
        System::WriteInputEvents.runs_before_game(),
        System::UpdateCollisions.runs_before_game(),
        System::PreUpdateTransforms.runs_before_game(),
        System::PreUpdateTransforms2D.runs_before_game(),
        System::PostUpdateTransforms.runs_after_game(),
        System::PostUpdateTransforms2D.runs_after_game(),
        System::InitializeSceneTree.runs_before(System::WriteSceneTreeEvents),
{
}

/// The bridge brings every one of its systems, each once.
pub proof fn lemma_every_system_once(system: System)
    ensures
        DefaultGodotPlugin::systems().contains(system),
        forall|i: int, j: int|
            0 <= i < j < DefaultGodotPlugin::systems().len() ==> DefaultGodotPlugin::systems()[i]
                != DefaultGodotPlugin::systems()[j],
{
    let all = DefaultGodotPlugin::systems();
    assert(all =~= seq![
        System::InitializeSceneTree,
        System::ConnectSceneTree,
        System::WriteSceneTreeEvents,
        System::ReadSceneTreeEvents,
        System::PostUpdateTransforms,
        System::PreUpdateTransforms,
        System::PostUpdateTransforms2D,
        System::PreUpdateTransforms2D,
        System::UpdateCollisions,
        System::WriteCollisionEvents,
        System::WriteSignalEvents,
        System::WriteInputEvents,
        System::SpawnScene,
    ]);
    match system {
        System::InitializeSceneTree => assert(all[0] == system),
        System::ConnectSceneTree => assert(all[1] == system),
        System::WriteSceneTreeEvents => assert(all[2] == system),
        System::ReadSceneTreeEvents => assert(all[3] == system),
        System::PostUpdateTransforms => assert(all[4] == system),
        System::PreUpdateTransforms => assert(all[5] == system),
        System::PostUpdateTransforms2D => assert(all[6] == system),
        System::PreUpdateTransforms2D => assert(all[7] == system),
        System::UpdateCollisions => assert(all[8] == system),
        System::WriteCollisionEvents => assert(all[9] == system),
        System::WriteSignalEvents => assert(all[10] == system),
        System::WriteInputEvents => assert(all[11] == system),
        System::SpawnScene => assert(all[12] == system),
    }
}

} // verus!
