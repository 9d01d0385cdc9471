//! Screens and workspaces as the compositor reports them, and the interface to it.
use vstd::prelude::*;

use crate::error::{Error, UserError};
use crate::layout::Layout;
use crate::resolution::Resolution;
use crate::text::{starts_with, str_eq};

verus! {

/// A screen as the compositor reports it; switched-off screens included, with their geometry
/// blanked. The scale is in ten-thousandths.
#[derive(Clone, Debug, PartialEq, Eq)]
pub struct Monitor {
    pub name: String,
    pub description: String,
    pub resolution: Resolution,
    pub x: i64,
    pub y: i64,
    pub scale: i64,
    pub disabled: bool,
    pub focused: bool,
    pub mirror_of: Option<String>,
    pub resolutions: Vec<Resolution>,
}

pub struct MonitorView {
    pub name: Seq<char>,
    pub description: Seq<char>,
    pub resolution: Resolution,
    pub x: i64,
    pub y: i64,
    pub scale: i64,
    pub disabled: bool,
    pub focused: bool,
    pub mirror_of: Option<Seq<char>>,
    pub resolutions: Seq<Resolution>,
}

impl View for Monitor {
    type V = MonitorView;

    open spec fn view(&self) -> MonitorView {
        MonitorView {
            name: self.name@,
            description: self.description@,
            resolution: self.resolution,
            x: self.x,
            y: self.y,
            scale: self.scale,
            disabled: self.disabled,
            focused: self.focused,
            mirror_of: match self.mirror_of {
                Some(s) => Some(s@),
                None => None,
            },
            resolutions: self.resolutions@,
        }
    }
}

pub open spec fn monitors_view(ms: Seq<Monitor>) -> Seq<MonitorView> {
    Seq::new(ms.len(), |i: int| ms[i]@)
}

/// Whether a connector name is a built-in panel's.
pub open spec fn internal_name(name: Seq<char>) -> bool {
    "eDP-"@.is_prefix_of(name) || "LVDS-"@.is_prefix_of(name) || "DSI-"@.is_prefix_of(name)
}

/// A copy of a list of modes.
pub fn copy_resolutions(v: &Vec<Resolution>) -> (r: Vec<Resolution>)
    ensures
        r@ == v@,
{
    let mut r: Vec<Resolution> = Vec::new();
    let mut i: usize = 0;
    while i < v.len()
        invariant
            i <= v.len(),
            r@ == v@.take(i as int),
        decreases v.len() - i,
    {
        r.push(v[i]);
        i = i + 1;
        assert(r@ =~= v@.take(i as int));
    }
    assert(v@.take(v.len() as int) =~= v@);
    r
}

impl Monitor {
    /// The description a profile is keyed on.
    pub fn description(&self) -> (d: &str)
        ensures
            d@ == self.description@,
    {
        self.description.as_str()
    }

    /// A copy with the same meaning.
    pub fn duplicate(&self) -> (m: Self)
        ensures
            m@ == self@,
    {
        Monitor {
            name: self.name.clone(),
            description: self.description.clone(),
            resolution: self.resolution,
            x: self.x,
            y: self.y,
            scale: self.scale,
            disabled: self.disabled,
            focused: self.focused,
            mirror_of: match &self.mirror_of {
                Some(s) => Some(s.clone()),
                None => None,
            },
            resolutions: copy_resolutions(&self.resolutions),
        }
    }

    pub fn is_internal(&self) -> (b: bool)
        ensures
            b == internal_name(self.name@),
    {
        starts_with(self.name.as_str(), "eDP-") || starts_with(self.name.as_str(), "LVDS-")
            || starts_with(self.name.as_str(), "DSI-")
    }
}

/// The monitors that carry a description, in order.
pub open spec fn with_description(ms: Seq<MonitorView>) -> Seq<MonitorView>
    decreases ms.len(),
{
    if ms.len() == 0 {
        Seq::empty()
    } else {
        with_description(ms.drop_last()) + if ms.last().description.len() > 0 {
            seq![ms.last()]
        } else {
            Seq::empty()
        }
    }
}

/// A profile is keyed on descriptions, so a monitor that reports none takes no part in it.
pub fn described_monitors(monitors: &[Monitor]) -> (r: Vec<Monitor>)
    ensures
        monitors_view(r@) == with_description(monitors_view(monitors@)),
{
    let ghost ms = monitors_view(monitors@);
    let mut out: Vec<Monitor> = Vec::new();
    let mut i: usize = 0;
    while i < monitors.len()
        invariant
            i <= monitors.len(),
            ms == monitors_view(monitors@),
            monitors_view(out@) == with_description(ms.take(i as int)),
        decreases monitors.len() - i,
    {
        let m = &monitors[i];
        let ghost prev = monitors_view(out@);
        proof {
            assert(ms[i as int] == m@);
            assert(ms.take(i + 1).drop_last() =~= ms.take(i as int));
        }
        if m.description.as_str().unicode_len() > 0 {
            out.push(m.duplicate());
            assert(monitors_view(out@) =~= prev + seq![ms[i as int]]);
        } else {
            assert(monitors_view(out@) =~= prev);
        }
        i = i + 1;
    }
    assert(ms.take(i as int) =~= ms);
    out
}

/// The first monitor whose connector is named `name`.
pub open spec fn named(ms: Seq<MonitorView>, name: Seq<char>) -> Option<int> {
    if exists|i: int| 0 <= i < ms.len() && #[trigger] ms[i].name == name {
        Some(
            choose|i: int|
                0 <= i < ms.len() && #[trigger] ms[i].name == name && forall|j: int|
                    0 <= j < i ==> ms[j].name != name,
        )
    } else {
        None
    }
}

/// The first monitor described as `desc`.
pub open spec fn described(ms: Seq<MonitorView>, desc: Seq<char>) -> Option<int> {
    if exists|i: int| 0 <= i < ms.len() && #[trigger] ms[i].description == desc {
        Some(
            choose|i: int|
                0 <= i < ms.len() && #[trigger] ms[i].description == desc && forall|j: int|
                    0 <= j < i ==> ms[j].description != desc,
        )
    } else {
        None
    }
}

/// Where the first monitor named `name` is.
pub fn find_named(monitors: &[Monitor], name: &str) -> (r: Option<usize>)
    ensures
        match r {
            Some(i) => named(monitors_view(monitors@), name@) == Some(i as int) && i
                < monitors@.len(),
            None => named(monitors_view(monitors@), name@) is None,
        },
{
    let ghost ms = monitors_view(monitors@);
    let mut i: usize = 0;
    while i < monitors.len()
        invariant
            i <= monitors.len(),
            ms == monitors_view(monitors@),
            forall|j: int| 0 <= j < i ==> ms[j].name != name@,
        decreases monitors.len() - i,
    {
        if str_eq(monitors[i].name.as_str(), name) {
            proof {
                assert(ms[i as int].name == name@);
                let w = choose|k: int|
                    0 <= k < ms.len() && #[trigger] ms[k].name == name@ && forall|j: int|
                        0 <= j < k ==> ms[j].name != name@;
                if w < i {
                } else if w > i {
                    assert(ms[i as int].name != name@);
                }
            }
            return Some(i);
        }
        i = i + 1;
    }
    proof {
        if exists|k: int| 0 <= k < ms.len() && #[trigger] ms[k].name == name@ {
            let k = choose|k: int| 0 <= k < ms.len() && #[trigger] ms[k].name == name@;
            assert(ms[k].name != name@);
        }
    }
    None
}

/// Where the first monitor described as `desc` is.
pub fn find_described(monitors: &[Monitor], desc: &str) -> (r: Option<usize>)
    ensures
        match r {
            Some(i) => described(monitors_view(monitors@), desc@) == Some(i as int) && i
                < monitors@.len(),
            None => described(monitors_view(monitors@), desc@) is None,
        },
{
    let ghost ms = monitors_view(monitors@);
    let mut i: usize = 0;
    while i < monitors.len()
        invariant
            i <= monitors.len(),
            ms == monitors_view(monitors@),
            forall|j: int| 0 <= j < i ==> ms[j].description != desc@,
        decreases monitors.len() - i,
    {
        if str_eq(monitors[i].description.as_str(), desc) {
            proof {
                assert(ms[i as int].description == desc@);
                let w = choose|k: int|
                    0 <= k < ms.len() && #[trigger] ms[k].description == desc@ && forall|j: int|
                        0 <= j < k ==> ms[j].description != desc@;
                if w < i {
                } else if w > i {
                    assert(ms[i as int].description != desc@);
                }
            }
            return Some(i);
        }
        i = i + 1;
    }
    proof {
        if exists|k: int| 0 <= k < ms.len() && #[trigger] ms[k].description == desc@ {
            let k = choose|k: int| 0 <= k < ms.len() && #[trigger] ms[k].description == desc@;
            assert(ms[k].description != desc@);
        }
    }
    None
}

/// Connector names are what a person types; descriptions are what a profile is keyed on.
pub fn description_of(monitors: &[Monitor], name: &str) -> (r: Result<String, UserError>)
    ensures
        match named(monitors_view(monitors@), name@) {
            Some(i) => 0 <= i < monitors@.len() && (r matches Ok(d) && d@ == monitors@[i].description@
                && d@ == monitors_view(monitors@)[i].description),
            None => r matches Err(UserError::UnknownMonitor { name: n }) && n@ == name@,
        },
{
    match find_named(monitors, name) {
        Some(i) => {
            assert(monitors_view(monitors@)[i as int] == monitors@[i as int]@);
            Ok(monitors[i].description.clone())
        },
        None => {
            let mut n = String::new();
            crate::text::push_str(&mut n, name);
            Err(UserError::UnknownMonitor { name: n })
        },
    }
}

/// The connector name of the first monitor with a description.
pub fn name_of(monitors: &[Monitor], description: &str) -> (r: Option<String>)
    ensures
        match described(monitors_view(monitors@), description@) {
            Some(i) => 0 <= i < monitors@.len() && (r matches Some(n) && n@ == monitors@[i].name@
                && n@ == monitors_view(monitors@)[i].name),
            None => r is None,
        },
{
    match find_described(monitors, description) {
        Some(i) => {
            assert(monitors_view(monitors@)[i as int] == monitors@[i as int]@);
            Some(monitors[i].name.clone())
        },
        None => None,
    }
}

#[derive(Clone, Debug, PartialEq, Eq)]
pub struct Workspace {
    pub name: String,
    pub monitor: String,
}

impl Workspace {
    /// A scratchpad workspace, which belongs to no screen in particular.
    pub fn is_special(&self) -> (b: bool)
        ensures
            b == "special"@.is_prefix_of(self.name@),
    {
        starts_with(self.name.as_str(), "special")
    }
}

/// The compositor a display command drives.
pub trait CompositorCtl {
    /// Switched-off screens included; they still carry the description a profile is keyed on.
    fn monitors(&self) -> Result<Vec<Monitor>, Error>;

    fn reload(&self) -> Result<(), Error>;

    fn workspaces(&self) -> Result<Vec<Workspace>, Error>;

    fn move_workspace_to_monitor(&self, workspace: &str, monitor: &str) -> Result<(), Error>;

    /// Only a profile that keeps its screens in order is ever rendered.
    fn render_rules(&self, layout: &Layout, monitors: &[Monitor]) -> String
        requires
            layout@.wf(),
    ;
}

} // verus!
