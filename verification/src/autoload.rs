//! The objects that the engine calls: the autoload that carries the
//! application from frame to frame, and the watchers that put what the engine
//! tells into the queues of the frame.
use vstd::prelude::*;
use crate::collisions::{CollisionEvent, CollisionEventReader, CollisionEventType};
use crate::godot_ref::ErasedGodotRef;
use crate::scene_tree::{SceneTreeEvent, SceneTreeEventReader, SceneTreeEventType};
use crate::signals::{
    GodotSignalReader, RelayedValue, SignalError, frame_error, frame_signal, framed, present,
    present_values,
};

verus! {

/// The classes that the bridge registers with the engine.
#[derive(Clone, Copy, Debug, PartialEq, Eq, Structural)]
pub enum NativeClass {
    Autoload,
    SceneTreeWatcher,
    CollisionWatcher,
    GodotSignalWatcher,
}

/// The classes that the engine has to know before the first frame, in the
/// order in which they are registered.
pub fn godot_init() -> (classes: Vec<NativeClass>)
    ensures
        classes@ == seq![
            NativeClass::Autoload,
            NativeClass::SceneTreeWatcher,
            NativeClass::CollisionWatcher,
            NativeClass::GodotSignalWatcher,
        ],
{
    let mut classes: Vec<NativeClass> = Vec::new();
    classes.push(NativeClass::Autoload);
    classes.push(NativeClass::SceneTreeWatcher);
    classes.push(NativeClass::CollisionWatcher);
    classes.push(NativeClass::GodotSignalWatcher);
    classes
}

/// On which tick of the engine a frame runs.
#[derive(Clone, Copy, Debug, PartialEq, Eq, Structural)]
pub enum FrameKind {
    /// The tick before a frame is drawn.
    Visual,
    /// The tick of the physics.
    Physics,
}

/// An update of the application that did not come to its end.
#[derive(Clone, Copy, Debug, PartialEq, Eq, Structural)]
pub struct FatalError;

/// One frame that is under way: the application, handed out for one update,
/// and the tick on which it runs.
#[derive(Debug)]
pub struct Frame<A> {
    pub app: A,
    pub kind: FrameKind,
}

/// The object that carries the application `A` from frame to frame.
///
/// The application is there from the moment the autoload is ready. For every
/// tick it is handed out for one update and taken back when the update came
/// to its end. An update that fails leaves the autoload without its
/// application: from then on no tick updates anything, while the engine
/// runs on.
#[derive(Debug)]
pub struct Autoload<A> {
    app: Option<A>,
}

impl<A> Autoload<A> {
    /// The application, while the autoload holds one.
    pub closed spec fn app(&self) -> Option<A> {
        self.app
    }

    /// The autoload before it is ready: without an application.
    pub fn new() -> (autoload: Self)
        ensures
            autoload.app() is None,
    {
        Autoload { app: None }
    }

    /// Whether the autoload holds an application.
    pub fn is_enabled(&self) -> (enabled: bool)
        ensures
            enabled == self.app() is Some,
    {
        self.app.is_some()
    }

    /// Takes the application that was built for the engine.
    pub fn _ready(&mut self, app: A)
        ensures
            final(self).app() == Some(app),
    {
        self.app = Some(app);
    }

    /// Hands the application out for one update on the given tick, if the
    /// autoload holds one.
    pub fn begin_frame(&mut self, kind: FrameKind) -> (frame: Option<Frame<A>>)
        ensures
            final(self).app() is None,
            match frame {
                Some(f) => old(self).app() == Some(f.app) && f.kind == kind,
                None => old(self).app() is None,
            },
    {
        match self.app.take() {
            Some(app) => Some(Frame { app, kind }),
            None => None,
        }
    }

    /// The tick before a frame is drawn.
    pub fn _process(&mut self) -> (frame: Option<Frame<A>>)
        ensures
            final(self).app() is None,
            match frame {
                Some(f) => old(self).app() == Some(f.app) && f.kind == FrameKind::Visual,
                None => old(self).app() is None,
            },
    {
        self.begin_frame(FrameKind::Visual)
    }

    /// The tick of the physics.
    pub fn _physics_process(&mut self) -> (frame: Option<Frame<A>>)
        ensures
            final(self).app() is None,
            match frame {
                Some(f) => old(self).app() == Some(f.app) && f.kind == FrameKind::Physics,
                None => old(self).app() is None,
            },
    {
        self.begin_frame(FrameKind::Physics)
    }

    /// Takes the application back after its update. After an update that
    /// failed the application is let go, and the failure is passed on.
    pub fn end_frame(&mut self, frame: Frame<A>, outcome: Result<(), FatalError>) -> (passed: Result<
        (),
        FatalError,
    >)
        ensures
            passed == outcome,
            final(self).app() == (if outcome is Ok {
                Some(frame.app)
            } else {
                None
            }),
    {
        if outcome.is_ok() {
            self.app = Some(frame.app);
        } else {
            self.app = None;
        }
        outcome
    }
}

/// The object that hears what happens to the scene tree.
#[derive(Clone, Copy, Debug, Default)]
pub struct SceneTreeWatcher;

impl SceneTreeWatcher {
    /// The watcher.
    pub fn new() -> Self {
        SceneTreeWatcher
    }

    /// Puts one notice of the scene tree into the queue of the frame.
    pub fn scene_tree_event(
        &self,
        queue: &mut SceneTreeEventReader,
        node: ErasedGodotRef,
        event_type: SceneTreeEventType,
    )
        ensures
            final(queue).0@ == old(queue).0@.push(SceneTreeEvent { node, event_type }),
    {
        queue.0.send(SceneTreeEvent { node, event_type });
    }
}

/// The object that hears which bodies meet and part.
#[derive(Clone, Copy, Debug, Default)]
pub struct CollisionWatcher;

impl CollisionWatcher {
    /// The watcher.
    pub fn new() -> Self {
        CollisionWatcher
    }

    /// Puts one contact event into the queue of the frame. The engine names
    /// the body that was met or left first, then the body that reports.
    pub fn collision_event(
        &self,
        queue: &mut CollisionEventReader,
        target: i64,
        origin: i64,
        event_type: CollisionEventType,
    )
        ensures
            final(queue).0@ == old(queue).0@.push(CollisionEvent { event_type, origin, target }),
    {
        queue.0.send(CollisionEvent { event_type, origin, target });
    }
}

/// The relay through which the signals of all objects come.
#[derive(Clone, Copy, Debug, Default)]
pub struct GodotSignalWatcher;

impl GodotSignalWatcher {
    /// The relay.
    pub fn new() -> Self {
        GodotSignalWatcher
    }

    /// Takes one call of the engine: where the values that are there give a
    /// signal, exactly that signal is put into the queue of the frame; else
    /// the queue stays as it was.
    pub fn event<V>(
        &self,
        queue: &mut GodotSignalReader<V>,
        slots: Vec<Option<RelayedValue<V>>>,
    ) -> (sent: Result<(), SignalError>)
        ensures
            match sent {
                Ok(()) => {
                    &&& frame_error(present(slots@)) is None
                    &&& final(queue).0@.len() == old(queue).0@.len() + 1
                    &&& final(queue).0@.drop_last() == old(queue).0@
                    &&& framed(present(slots@), final(queue).0@.last())
                },
                Err(e) => frame_error(present(slots@)) == Some(e) && final(queue).0@ == old(
                    queue,
                ).0@,
            },
    {
        let values = present_values(slots);
        match frame_signal(values) {
            Ok(signal) => {
                queue.0.send(signal);
                assert(queue.0@.drop_last() =~= old(queue).0@);
                Ok(())
            },
            Err(e) => Err(e),
        }
    }
}

} // verus!
