//! The data attached to entities.
//!
//! Every quantity is an integer. Lengths and coordinates are counted in world
//! units, times in microseconds, and fractions (velocity, scale) in
//! thousandths, so that [`UNIT`] stands for one.

use vstd::prelude::*;

verus! {

/// The value that stands for one in a fixed-point fraction.
pub const UNIT: u32 = 1000;

/// An opaque handle on one row of the world store. Handles are handed out in
/// increasing order and never used again for another row.
#[derive(Clone, Copy, Debug, PartialEq, Eq, Hash)]
pub struct EntityId(pub u64);

/// Where an entity is, how large it is drawn, and in which layer.
#[derive(Clone, Copy, Debug, PartialEq, Eq)]
pub struct Position {
    pub x: i64,
    pub y: i64,
    /// Draw order only; no rule reads it.
    pub depth: i32,
    /// Thousandths: `UNIT` leaves sizes as they are.
    pub scale: u32,
}

/// A direction, in thousandths per axis: `UNIT` is full speed along the axis.
#[derive(Clone, Copy, Debug, PartialEq, Eq)]
pub struct Velocity {
    pub x: i32,
    pub y: i32,
}

/// Marks an entity that the movement stage advances.
#[derive(Clone, Copy, Debug, PartialEq, Eq)]
pub struct Movable {
    /// Whether the entity is removed once it has left the arena and its margin.
    pub auto_despawn: bool,
    /// What the steps so far have left over of a world unit along x, in the
    /// parts into which the movement stage divides a unit.
    pub carry_x: u64,
    /// The same along y.
    pub carry_y: u64,
}

/// Half the width and half the height of the box used for collisions.
#[derive(Clone, Copy, Debug, PartialEq, Eq)]
pub struct SpriteSize {
    pub half_width: u32,
    pub half_height: u32,
}

/// Who fired a laser.
#[derive(Clone, Copy, Debug, PartialEq, Eq)]
pub enum Owner {
    FromPlayer,
    FromEnemy,
}

/// What an entity is. An entity has at most one role.
#[derive(Clone, Copy, Debug, PartialEq, Eq)]
pub enum Role {
    Player,
    Enemy,
    Laser(Owner),
    Explosion,
}

/// Asks for an explosion at a place. The entity that carries it lives for
/// less than one tick.
#[derive(Clone, Copy, Debug, PartialEq, Eq)]
pub struct ExplosionRequest {
    pub x: i64,
    pub y: i64,
    pub depth: i32,
}

/// The clock of one explosion animation.
#[derive(Clone, Copy, Debug, PartialEq, Eq)]
pub struct ExplosionTimer {
    /// Time gathered towards the next frame, in microseconds.
    pub elapsed: u64,
    /// How long one frame is shown, in microseconds.
    pub frame_duration: u64,
    /// The frame shown now, counted from 0.
    pub frame_index: u64,
}

/// One attachable piece of data.
#[derive(Clone, Copy, Debug, PartialEq, Eq)]
pub enum Component {
    Position(Position),
    Velocity(Velocity),
    Movable(Movable),
    SpriteSize(SpriteSize),
    Role(Role),
    ExplosionRequest(ExplosionRequest),
    ExplosionTimer(ExplosionTimer),
}

/// The kinds of component, without their data.
#[derive(Clone, Copy, Debug, PartialEq, Eq)]
pub enum ComponentType {
    Position,
    Velocity,
    Movable,
    SpriteSize,
    Role,
    ExplosionRequest,
    ExplosionTimer,
}

/// How an entity is to be drawn.
#[derive(Clone, Copy, Debug, PartialEq, Eq)]
pub enum Visual {
    Player,
    Enemy,
    Laser,
    /// An explosion, with the frame to show.
    Explosion(u64),
}

/// What a query asks of an entity: the components that must be attached and,
/// if `role` is set, the role that it must have.
#[derive(Clone, Copy, Debug, PartialEq, Eq)]
pub struct CapabilitySet {
    pub position: bool,
    pub velocity: bool,
    pub movable: bool,
    pub size: bool,
    pub request: bool,
    pub timer: bool,
    pub role: Option<Role>,
}

/// One entity with everything attached to it.
#[derive(Clone, Copy, Debug, PartialEq, Eq)]
pub struct Row {
    pub id: EntityId,
    pub position: Option<Position>,
    pub velocity: Option<Velocity>,
    pub movable: Option<Movable>,
    pub size: Option<SpriteSize>,
    pub role: Option<Role>,
    pub request: Option<ExplosionRequest>,
    pub timer: Option<ExplosionTimer>,
}

impl Movable {
    /// The mark of an entity that has not moved yet.
    pub open spec fn fresh(auto_despawn: bool) -> Movable {
        Movable { auto_despawn, carry_x: 0, carry_y: 0 }
    }

    /// The mark of an entity that has not moved yet.
    pub fn new(auto_despawn: bool) -> (mark: Movable)
        ensures
            mark == Movable::fresh(auto_despawn),
    {
        Movable { auto_despawn, carry_x: 0, carry_y: 0 }
    }
}

impl Velocity {
    /// Both axes lie between minus one and one.
    pub open spec fn is_normalized(self) -> bool {
        -(UNIT as int) <= self.x <= UNIT as int && -(UNIT as int) <= self.y <= UNIT as int
    }

    /// A velocity from thousandths per axis; `None` where an axis is beyond one.
    pub fn new(x: i32, y: i32) -> (v: Option<Velocity>)
        ensures
            v == (if (Velocity { x, y }).is_normalized() {
                Some(Velocity { x, y })
            } else {
                None
            }),
    {
        if -1000 <= x && x <= 1000 && -1000 <= y && y <= 1000 {
            Some(Velocity { x, y })
        } else {
            None
        }
    }
}

impl Component {
    /// The kind of this component.
    pub open spec fn kind(self) -> ComponentType {
        match self {
            Component::Position(_) => ComponentType::Position,
            Component::Velocity(_) => ComponentType::Velocity,
            Component::Movable(_) => ComponentType::Movable,
            Component::SpriteSize(_) => ComponentType::SpriteSize,
            Component::Role(_) => ComponentType::Role,
            Component::ExplosionRequest(_) => ComponentType::ExplosionRequest,
            Component::ExplosionTimer(_) => ComponentType::ExplosionTimer,
        }
    }

    pub fn component_type(&self) -> (k: ComponentType)
        ensures
            k == self.kind(),
    {
        match self {
            Component::Position(_) => ComponentType::Position,
            Component::Velocity(_) => ComponentType::Velocity,
            Component::Movable(_) => ComponentType::Movable,
            Component::SpriteSize(_) => ComponentType::SpriteSize,
            Component::Role(_) => ComponentType::Role,
            Component::ExplosionRequest(_) => ComponentType::ExplosionRequest,
            Component::ExplosionTimer(_) => ComponentType::ExplosionTimer,
        }
    }
}

impl CapabilitySet {
    /// Asks for nothing: every entity matches.
    pub open spec fn nothing() -> CapabilitySet {
        CapabilitySet {
            position: false,
            velocity: false,
            movable: false,
            size: false,
            request: false,
            timer: false,
            role: None,
        }
    }

    pub fn any() -> (caps: CapabilitySet)
        ensures
            caps == CapabilitySet::nothing(),
    {
        CapabilitySet {
            position: false,
            velocity: false,
            movable: false,
            size: false,
            request: false,
            timer: false,
            role: None,
        }
    }

    /// Asks for one role and nothing else.
    pub fn with_role(role: Role) -> (caps: CapabilitySet)
        ensures
            caps == (CapabilitySet { role: Some(role), ..CapabilitySet::nothing() }),
    {
        CapabilitySet {
            position: false,
            velocity: false,
            movable: false,
            size: false,
            request: false,
            timer: false,
            role: Some(role),
        }
    }
}

/// Whether two roles are the same role.
pub fn same_role(a: Role, b: Role) -> (same: bool)
    ensures
        same == (a == b),
{
    match (a, b) {
        (Role::Player, Role::Player) => true,
        (Role::Enemy, Role::Enemy) => true,
        (Role::Explosion, Role::Explosion) => true,
        (Role::Laser(Owner::FromPlayer), Role::Laser(Owner::FromPlayer)) => true,
        (Role::Laser(Owner::FromEnemy), Role::Laser(Owner::FromEnemy)) => true,
        _ => false,
    }
}

impl Row {
    /// The row with this handle and nothing attached.
    pub open spec fn bare(id: EntityId) -> Row {
        Row {
            id,
            position: None,
            velocity: None,
            movable: None,
            size: None,
            role: None,
            request: None,
            timer: None,
        }
    }

    /// This row under another handle.
    pub open spec fn with_id(self, id: EntityId) -> Row {
        Row { id, ..self }
    }

    /// This row after `component` has been attached. A component replaces
    /// the one of its kind that was there.
    pub open spec fn with(self, component: Component) -> Row {
        match component {
            Component::Position(p) => Row { position: Some(p), ..self },
            Component::Velocity(v) => Row { velocity: Some(v), ..self },
            Component::Movable(m) => Row { movable: Some(m), ..self },
            Component::SpriteSize(s) => Row { size: Some(s), ..self },
            Component::Role(r) => Row { role: Some(r), ..self },
            Component::ExplosionRequest(q) => Row { request: Some(q), ..self },
            Component::ExplosionTimer(t) => Row { timer: Some(t), ..self },
        }
    }

    /// The component of one kind, if it is attached.
    pub open spec fn component(self, kind: ComponentType) -> Option<Component> {
        match kind {
            ComponentType::Position => match self.position {
                Some(p) => Some(Component::Position(p)),
                None => None,
            },
            ComponentType::Velocity => match self.velocity {
                Some(v) => Some(Component::Velocity(v)),
                None => None,
            },
            ComponentType::Movable => match self.movable {
                Some(m) => Some(Component::Movable(m)),
                None => None,
            },
            ComponentType::SpriteSize => match self.size {
                Some(s) => Some(Component::SpriteSize(s)),
                None => None,
            },
            ComponentType::Role => match self.role {
                Some(r) => Some(Component::Role(r)),
                None => None,
            },
            ComponentType::ExplosionRequest => match self.request {
                Some(q) => Some(Component::ExplosionRequest(q)),
                None => None,
            },
            ComponentType::ExplosionTimer => match self.timer {
                Some(t) => Some(Component::ExplosionTimer(t)),
                None => None,
            },
        }
    }

    /// Whether the row has all that `caps` asks for.
    pub open spec fn matches(self, caps: CapabilitySet) -> bool {
        &&& caps.position ==> self.position is Some
        &&& caps.velocity ==> self.velocity is Some
        &&& caps.movable ==> self.movable is Some
        &&& caps.size ==> self.size is Some
        &&& caps.request ==> self.request is Some
        &&& caps.timer ==> self.timer is Some
        &&& caps.role is Some ==> self.role == caps.role
    }

    /// How the row is to be drawn, if it is: by its role, and for an
    /// explosion by the frame of its clock, or the first frame without one.
    pub open spec fn drawn_as(self) -> Option<Visual> {
        match self.role {
            Some(Role::Player) => Some(Visual::Player),
            Some(Role::Enemy) => Some(Visual::Enemy),
            Some(Role::Laser(_)) => Some(Visual::Laser),
            Some(Role::Explosion) => Some(
                Visual::Explosion(
                    match self.timer {
                        Some(t) => t.frame_index,
                        None => 0,
                    },
                ),
            ),
            None => None,
        }
    }

    /// Whether the row has this role.
    pub open spec fn is_a(self, role: Role) -> bool {
        self.role == Some(role)
    }

    pub fn new(id: EntityId) -> (row: Row)
        ensures
            row == Row::bare(id),
    {
        Row {
            id,
            position: None,
            velocity: None,
            movable: None,
            size: None,
            role: None,
            request: None,
            timer: None,
        }
    }

    /// Attaches `component`, in place of the one of its kind.
    pub fn attach(&mut self, component: Component)
        ensures
            *final(self) == old(self).with(component),
    {
        match component {
            Component::Position(p) => {
                self.position = Some(p);
            },
            Component::Velocity(v) => {
                self.velocity = Some(v);
            },
            Component::Movable(m) => {
                self.movable = Some(m);
            },
            Component::SpriteSize(s) => {
                self.size = Some(s);
            },
            Component::Role(r) => {
                self.role = Some(r);
            },
            Component::ExplosionRequest(q) => {
                self.request = Some(q);
            },
            Component::ExplosionTimer(t) => {
                self.timer = Some(t);
            },
        }
    }

    /// The component of one kind, if it is attached.
    pub fn get(&self, kind: ComponentType) -> (found: Option<Component>)
        ensures
            found == self.component(kind),
    {
        match kind {
            ComponentType::Position => match self.position {
                Some(p) => Some(Component::Position(p)),
                None => None,
            },
            ComponentType::Velocity => match self.velocity {
                Some(v) => Some(Component::Velocity(v)),
                None => None,
            },
            ComponentType::Movable => match self.movable {
                Some(m) => Some(Component::Movable(m)),
                None => None,
            },
            ComponentType::SpriteSize => match self.size {
                Some(s) => Some(Component::SpriteSize(s)),
                None => None,
            },
            ComponentType::Role => match self.role {
                Some(r) => Some(Component::Role(r)),
                None => None,
            },
            ComponentType::ExplosionRequest => match self.request {
                Some(q) => Some(Component::ExplosionRequest(q)),
                None => None,
            },
            ComponentType::ExplosionTimer => match self.timer {
                Some(t) => Some(Component::ExplosionTimer(t)),
                None => None,
            },
        }
    }

    /// How the row is to be drawn, if it is.
    pub fn visual(&self) -> (kind: Option<Visual>)
        ensures
            kind == self.drawn_as(),
    {
        match self.role {
            Some(Role::Player) => Some(Visual::Player),
            Some(Role::Enemy) => Some(Visual::Enemy),
            Some(Role::Laser(_)) => Some(Visual::Laser),
            Some(Role::Explosion) => Some(
                Visual::Explosion(
                    match self.timer {
                        Some(t) => t.frame_index,
                        None => 0,
                    },
                ),
            ),
            None => None,
        }
    }

    /// Whether the row has this role.
    pub fn has_role(&self, role: Role) -> (yes: bool)
        ensures
            yes == self.is_a(role),
    {
        match self.role {
            Some(r) => same_role(r, role),
            None => false,
        }
    }

    /// Whether the row has all that `caps` asks for.
    pub fn has(&self, caps: &CapabilitySet) -> (yes: bool)
        ensures
            yes == self.matches(*caps),
    {
        let role_ok = match caps.role {
            Some(wanted) => self.has_role(wanted),
            None => true,
        };
        role_ok && (!caps.position || self.position.is_some()) && (!caps.velocity
            || self.velocity.is_some()) && (!caps.movable || self.movable.is_some()) && (!caps.size
            || self.size.is_some()) && (!caps.request || self.request.is_some()) && (!caps.timer
            || self.timer.is_some())
    }
}

/// A component that was attached is the one found under its kind, and the
/// components of the other kinds stay as they were.
pub proof fn lemma_attach_then_get(row: Row, component: Component, kind: ComponentType)
    ensures
        row.with(component).component(component.kind()) == Some(component),
        kind != component.kind() ==> row.with(component).component(kind) == row.component(kind),
        row.with(component).id == row.id,
{
}

} // verus!
