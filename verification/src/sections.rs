//! The interface's navigation and the phases its timed tests move through.
use vstd::prelude::*;
use crate::session_log::{Level, SessionLog};

verus! {

broadcast use vstd::string::group_string_axioms;

#[derive(Clone, Copy, PartialEq, Eq, Debug, Structural)]
pub enum Section {
    Device,
    Polling,
    Clicks,
    Cps,
    Ab,
    Sensor,
    Scroll,
    Session,
}

pub open spec fn section_titles() -> Seq<Seq<char>> {
    seq![
        "DEVICE"@,
        "POLLING"@,
        "CLICKS"@,
        "CPS"@,
        "A/B"@,
        "SENSOR"@,
        "SCROLL"@,
        "SESSION"@,
    ]
}

/// Position of a section in the sidebar.
pub open spec fn section_index(s: Section) -> int {
    match s {
        Section::Device => 0,
        Section::Polling => 1,
        Section::Clicks => 2,
        Section::Cps => 3,
        Section::Ab => 4,
        Section::Sensor => 5,
        Section::Scroll => 6,
        Section::Session => 7,
    }
}

impl Section {
    /// Every section, in sidebar order.
    pub fn all() -> (r: [Section; 8])
        ensures
            forall|i: int| 0 <= i < 8 ==> section_index(#[trigger] r@[i]) == i,
    {
        [
            Section::Device,
            Section::Polling,
            Section::Clicks,
            Section::Cps,
            Section::Ab,
            Section::Sensor,
            Section::Scroll,
            Section::Session,
        ]
    }

    pub fn title(self) -> (t: &'static str)
        ensures
            t@ == section_titles()[section_index(self)],
    {
        match self {
            Section::Device => "DEVICE",
            Section::Polling => "POLLING",
            Section::Clicks => "CLICKS",
            Section::Cps => "CPS",
            Section::Ab => "A/B",
            Section::Sensor => "SENSOR",
            Section::Scroll => "SCROLL",
            Section::Session => "SESSION",
        }
    }
}

/// Phase of one sensor or scroll test.
#[derive(Clone, Copy, PartialEq, Eq, Debug, Structural)]
pub enum SensorPhase {
    Idle,
    /// Counting down so the mouse under test can be picked up. Every sensor
    /// test needs both hands on the mouse being measured, which cannot also be
    /// the thing that pressed the button.
    Countdown,
    Recording,
}

/// Phase of an A/B run. Nothing about a trial's result is available to the
/// interface until the whole run reaches `Done`.
#[derive(Clone, Copy, PartialEq, Eq, Debug, Structural)]
pub enum AbPhase {
    Setup,
    /// Waiting for the setting to be changed on the mouse.
    Prompt,
    Countdown,
    Trial,
    Done,
}

/// Export and reload of session data, as the SESSION section holds it.
pub struct SessionDataState {
    /// Path typed by the user, or picked from the list of previous exports.
    pub load_path: String,
    /// A previously exported log, held beside the live session for
    /// comparison rather than replacing it.
    pub loaded: Option<SessionLog>,
    pub loaded_from: String,
    pub loaded_skipped: usize,
    /// Which level the side-by-side comparison shows.
    pub compare_level: Level,
    /// What the last export did, shown verbatim including any error.
    pub export_message: String,
    pub export_bad: bool,
    /// What the last load did, kept apart from the export message because
    /// the two appear under different headings.
    pub load_message: String,
    pub load_bad: bool,
    pub last_raw: Option<String>,
    pub last_summary: Option<String>,
}

impl Default for SessionDataState {
    fn default() -> (s: Self)
        ensures
            s.load_path@.len() == 0,
            s.loaded is None,
            s.loaded_from@.len() == 0,
            s.loaded_skipped == 0,
            s.compare_level == Level::Device,
            s.export_message@.len() == 0,
            !s.export_bad,
            s.load_message@.len() == 0,
            !s.load_bad,
            s.last_raw is None,
            s.last_summary is None,
    {
        SessionDataState {
            load_path: String::new(),
            loaded: None,
            loaded_from: String::new(),
            loaded_skipped: 0,
            compare_level: Level::default(),
            export_message: String::new(),
            export_bad: false,
            load_message: String::new(),
            load_bad: false,
            last_raw: None,
            last_summary: None,
        }
    }
}

} // verus!
