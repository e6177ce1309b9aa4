use vstd::prelude::*;
use vstd::std_specs::convert::{FromSpecImpl, IntoSpec};

verus! {

/// Three single-precision floats, each held as its IEEE-754 bit pattern.
#[derive(Clone, Copy, Debug, PartialEq, Eq, Structural)]
pub struct Vector3 {
    pub x: u32,
    pub y: u32,
    pub z: u32,
}

/// A rotation quaternion, each coefficient held as its IEEE-754 bit pattern.
#[derive(Clone, Copy, Debug, PartialEq, Eq, Structural)]
pub struct Quaternion {
    pub i: u32,
    pub j: u32,
    pub k: u32,
    pub w: u32,
}

/// A rigid transform: a rotation followed by a translation.
#[derive(Clone, Copy, Debug, PartialEq, Eq, Structural)]
pub struct Isometry {
    pub rotation: Quaternion,
    pub translation: Vector3,
}

/// A span of time since the UNIX epoch, as whole seconds and the nanoseconds beyond them.
#[derive(Clone, Copy, Debug, PartialEq, Eq, Structural)]
pub struct Timestamp {
    pub secs: u64,
    pub nanos: u32,
}

/// How an entity looks. The server only keeps it to tell it to clients that join; on a client
/// it selects what is drawn. It never influences behaviour.
#[derive(Clone, Debug, PartialEq, Eq)]
pub struct Appearance {
    pub filepath: String,
}

impl View for Appearance {
    type V = Seq<char>;

    open spec fn view(&self) -> Seq<char> {
        self.filepath@
    }
}

impl Appearance {
    /// The appearance whose file is named by `filepath`, given as anything that converts
    /// into a `String`.
    pub fn new<S: Into<String>>(filepath: S) -> (appearance: Self)
        ensures
            call_ensures(S::into, (filepath,), appearance.filepath),
            S::obeys_into_spec() ==> appearance.filepath == filepath.into_spec(),
    {
        Self { filepath: filepath.into() }
    }

    /// Another appearance that names the same file.
    pub fn duplicate(&self) -> (copy: Self)
        ensures
            copy@ == self@,
    {
        Self { filepath: self.filepath.clone() }
    }
}

/// Where the local simulation has an entity right now.
#[derive(Clone, Copy, Debug, PartialEq, Eq, Structural)]
pub struct SimplePosition {
    pub iso: Isometry,
}

/// Where the server had an entity at `time_stamp`. Sent from the server to the clients; a
/// client is nudged toward it and never set to it.
#[derive(Clone, Copy, Debug, PartialEq, Eq, Structural)]
pub struct UpdatePosition {
    pub iso: Isometry,
    pub time_stamp: Timestamp,
}

/// The direction a client is looking in, sent from the client to the server.
#[derive(Clone, Copy, Debug, PartialEq, Eq, Structural)]
pub struct Looking {
    pub dir: Vector3,
}

/// Where, relative to where it is looking, a client would like to go. Negative x is to its left.
#[derive(Clone, Copy, Debug, PartialEq, Eq, Structural)]
pub struct Heading {
    pub dir: Vector3,
}

/// Marks the entity a client looks out of. Nobody has one on the server; the server tells a
/// client which of its entities gets it.
#[derive(Clone, Copy, Debug, PartialEq, Eq, Structural)]
pub struct Camera;

/// The closed set of component kinds that travel over the wire, one variant per kind.
#[derive(Clone, Debug, PartialEq, Eq)]
pub enum NetComponent {
    Appearance(Appearance),
    SimplePosition(SimplePosition),
    UpdatePosition(UpdatePosition),
    Looking(Looking),
    Heading(Heading),
    Camera(Camera),
}

/// What a `NetComponent` holds, as a mathematical value.
pub enum ComponentValue {
    Appearance(Seq<char>),
    SimplePosition(SimplePosition),
    UpdatePosition(UpdatePosition),
    Looking(Looking),
    Heading(Heading),
    Camera,
}

impl View for NetComponent {
    type V = ComponentValue;

    open spec fn view(&self) -> ComponentValue {
        match *self {
            NetComponent::Appearance(a) => ComponentValue::Appearance(a@),
            NetComponent::SimplePosition(p) => ComponentValue::SimplePosition(p),
            NetComponent::UpdatePosition(u) => ComponentValue::UpdatePosition(u),
            NetComponent::Looking(l) => ComponentValue::Looking(l),
            NetComponent::Heading(h) => ComponentValue::Heading(h),
            NetComponent::Camera(_) => ComponentValue::Camera,
        }
    }
}

impl From<Appearance> for NetComponent {
    fn from(c: Appearance) -> (component: NetComponent) {
        NetComponent::Appearance(c)
    }
}

impl FromSpecImpl<Appearance> for NetComponent {
    open spec fn obeys_from_spec() -> bool {
        true
    }

    open spec fn from_spec(c: Appearance) -> NetComponent {
        NetComponent::Appearance(c)
    }
}

impl From<SimplePosition> for NetComponent {
    fn from(c: SimplePosition) -> (component: NetComponent) {
        NetComponent::SimplePosition(c)
    }
}

impl FromSpecImpl<SimplePosition> for NetComponent {
    open spec fn obeys_from_spec() -> bool {
        true
    }

    open spec fn from_spec(c: SimplePosition) -> NetComponent {
        NetComponent::SimplePosition(c)
    }
}

impl From<UpdatePosition> for NetComponent {
    fn from(c: UpdatePosition) -> (component: NetComponent) {
        NetComponent::UpdatePosition(c)
    }
}

impl FromSpecImpl<UpdatePosition> for NetComponent {
    open spec fn obeys_from_spec() -> bool {
        true
    }

    open spec fn from_spec(c: UpdatePosition) -> NetComponent {
        NetComponent::UpdatePosition(c)
    }
}

impl From<Looking> for NetComponent {
    fn from(c: Looking) -> (component: NetComponent) {
        NetComponent::Looking(c)
    }
}

impl FromSpecImpl<Looking> for NetComponent {
    open spec fn obeys_from_spec() -> bool {
        true
    }

    open spec fn from_spec(c: Looking) -> NetComponent {
        NetComponent::Looking(c)
    }
}

impl From<Heading> for NetComponent {
    fn from(c: Heading) -> (component: NetComponent) {
        NetComponent::Heading(c)
    }
}

impl FromSpecImpl<Heading> for NetComponent {
    open spec fn obeys_from_spec() -> bool {
        true
    }

    open spec fn from_spec(c: Heading) -> NetComponent {
        NetComponent::Heading(c)
    }
}

impl From<Camera> for NetComponent {
    fn from(c: Camera) -> (component: NetComponent) {
        NetComponent::Camera(c)
    }
}

impl FromSpecImpl<Camera> for NetComponent {
    open spec fn obeys_from_spec() -> bool {
        true
    }

    open spec fn from_spec(c: Camera) -> NetComponent {
        NetComponent::Camera(c)
    }
}

} // verus!
