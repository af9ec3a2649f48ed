//! The state of one output, however it was read.

use vstd::prelude::*;

verus! {

/// The current state of one output.
#[derive(Debug)]
pub struct OutputInfo {
    pub name: String,
    /// A monitor is physically plugged in.
    pub connected: bool,
    /// The output currently has a mode/geometry (it is enabled).
    pub active: bool,
    pub primary: bool,
    /// Current mode `(width, height)` when active.
    pub resolution: Option<(u32, u32)>,
    /// Current absolute position `(x, y)` when active.
    pub position: Option<(i32, i32)>,
    /// The monitor's preferred (native) mode.
    pub preferred: Option<(u32, u32)>,
}

/// What an [`OutputInfo`] says, with the name as a sequence of characters.
#[verifier::ext_equal]
pub struct OutputInfoView {
    pub name: Seq<char>,
    pub connected: bool,
    pub active: bool,
    pub primary: bool,
    pub resolution: Option<(u32, u32)>,
    pub position: Option<(i32, i32)>,
    pub preferred: Option<(u32, u32)>,
}

impl View for OutputInfo {
    type V = OutputInfoView;

    open spec fn view(&self) -> OutputInfoView {
        OutputInfoView {
            name: self.name@,
            connected: self.connected,
            active: self.active,
            primary: self.primary,
            resolution: self.resolution,
            position: self.position,
            preferred: self.preferred,
        }
    }
}

impl Clone for OutputInfo {
    fn clone(&self) -> (output: Self)
        ensures
            output@ == self@,
    {
        OutputInfo {
            name: self.name.clone(),
            connected: self.connected,
            active: self.active,
            primary: self.primary,
            resolution: self.resolution,
            position: self.position,
            preferred: self.preferred,
        }
    }
}

/// What a list of outputs says.
pub open spec fn outputs_view(list: Seq<OutputInfo>) -> Seq<OutputInfoView> {
    list.map_values(|o: OutputInfo| o@)
}

/// Every field of an output is told, as it is, and a list output by output.
pub proof fn law_outputs_are_viewed_field_by_field(list: Seq<OutputInfo>)
    ensures
        outputs_view(list).len() == list.len(),
        forall|i: int|
            0 <= i < list.len() ==> {
                let told = #[trigger] outputs_view(list)[i];
                &&& told.name == list[i].name@
                &&& told.connected == list[i].connected
                &&& told.active == list[i].active
                &&& told.primary == list[i].primary
                &&& told.resolution == list[i].resolution
                &&& told.position == list[i].position
                &&& told.preferred == list[i].preferred
            },
{
}

} // verus!
