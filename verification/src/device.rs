//! The tablets that the library knows, and where their input devices are.
use vstd::prelude::*;

verus! {

#[derive(Clone, Copy, Debug, PartialEq, Eq, Structural)]
pub enum DeviceModel {
    Remarkable2,
    RemarkablePaperPro,
    /// A tablet that was not recognised; treated as a reMarkable 2.
    Unknown,
}

impl DeviceModel {
    /// The width and height of the touch panel's coordinate space.
    pub open spec fn spec_screen_dimensions(self) -> (u32, u32) {
        match self {
            DeviceModel::RemarkablePaperPro => (2065, 2833),
            _ => (1404, 1872),
        }
    }

    /// The largest x and y that the pen digitizer reports.
    pub open spec fn spec_pen_max(self) -> (u32, u32) {
        match self {
            DeviceModel::RemarkablePaperPro => (11180, 15340),
            _ => (15725, 20966),
        }
    }

    /// The device file of the touch panel.
    pub open spec fn spec_touch_input_device(self) -> Seq<char> {
        if self == DeviceModel::RemarkablePaperPro {
            "/dev/input/event3"@
        } else {
            "/dev/input/event2"@
        }
    }

    /// The device file of the pen digitizer.
    pub open spec fn spec_pen_input_device(self) -> Seq<char> {
        if self == DeviceModel::RemarkablePaperPro {
            "/dev/input/event2"@
        } else {
            "/dev/input/event1"@
        }
    }

    /// The device file of the touch panel.
    pub fn touch_input_device(self) -> (path: &'static str)
        ensures
            path@ == (if self == DeviceModel::RemarkablePaperPro {
                "/dev/input/event3"@
            } else {
                "/dev/input/event2"@
            }),
            path@ == self.spec_touch_input_device(),
    {
        match self {
            DeviceModel::Remarkable2 => "/dev/input/event2",
            DeviceModel::RemarkablePaperPro => "/dev/input/event3",
            DeviceModel::Unknown => "/dev/input/event2",
        }
    }

    /// The device file of the pen digitizer.
    pub fn pen_input_device(self) -> (path: &'static str)
        ensures
            path@ == (if self == DeviceModel::RemarkablePaperPro {
                "/dev/input/event2"@
            } else {
                "/dev/input/event1"@
            }),
            path@ == self.spec_pen_input_device(),
    {
        match self {
            DeviceModel::RemarkablePaperPro => "/dev/input/event2",
            _ => "/dev/input/event1",
        }
    }
}

/// Device files are numbered: on every tablet the touch panel comes right after
/// the digitizer, and on a reMarkable Paper Pro both come one later than on the
/// others, whose digitizer is the first.
pub proof fn law_device_files_are_numbered(model: DeviceModel, other: DeviceModel)
    requires
        model == DeviceModel::RemarkablePaperPro,
        other != DeviceModel::RemarkablePaperPro,
    ensures
        model.spec_touch_input_device().drop_last() == "/dev/input/event"@,
        model.spec_pen_input_device().drop_last() == "/dev/input/event"@,
        other.spec_touch_input_device().drop_last() == "/dev/input/event"@,
        other.spec_pen_input_device().drop_last() == "/dev/input/event"@,
        other.spec_pen_input_device().last() == '1',
        other.spec_touch_input_device().last() as int == other.spec_pen_input_device().last() as int
            + 1,
        model.spec_touch_input_device().last() as int == model.spec_pen_input_device().last() as int
            + 1,
        model.spec_pen_input_device().last() as int == other.spec_pen_input_device().last() as int
            + 1,
{
    reveal_strlit("/dev/input/event");
    reveal_strlit("/dev/input/event1");
    reveal_strlit("/dev/input/event2");
    reveal_strlit("/dev/input/event3");
    assert("/dev/input/event1"@.drop_last() =~= "/dev/input/event"@);
    assert("/dev/input/event2"@.drop_last() =~= "/dev/input/event"@);
    assert("/dev/input/event3"@.drop_last() =~= "/dev/input/event"@);
}

} // verus!
