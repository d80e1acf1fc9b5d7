//! The remover's window as a state machine: the settings its controls edit,
//! the events they send, and the work each event asks of the program around
//! it (dialogs, decoding, removal, previews, saving).
use vstd::prelude::*;
use crate::controls::CornerSel;

verus! {

/// The page shown.
#[derive(Clone, Copy, PartialEq, Eq, Debug, Structural)]
pub enum Tab {
    Watermark,
    Remove,
    About,
}

/// The tile size to learn: chosen from the batch, or fixed.
#[derive(Clone, Copy, PartialEq, Eq, Debug, Structural)]
pub enum SizeSel {
    Auto,
    S96,
    S48,
}

/// What the controls hold.
pub struct Settings {
    pub tab: Tab,
    pub corner_sel: CornerSel,
    pub nudge_x: String,
    pub nudge_y: String,
    pub color_hex: String,
    /// Opacity calibration, in percent.
    pub strength: i32,
    pub show_outline: bool,
    pub show_before: bool,
    pub show_zoom: bool,
    pub learn_corner: CornerSel,
    pub learn_size: SizeSel,
}

/// What the user did.
pub enum Event {
    Tab(Tab),
    OpenImage,
    CornerChanged(CornerSel),
    NudgeX(String),
    NudgeY(String),
    Color(String),
    Strength(i32),
    ToggleOutline(bool),
    ToggleBefore(bool),
    ToggleZoom(bool),
    Save,
    AddLearnImages,
    LearnCorner(CornerSel),
    LearnSize(SizeSel),
    /// Learn from the batch, which holds this many images.
    DoLearn(usize),
    SaveProfile,
    LoadProfile,
    FileDropped,
    /// An image to clean was decoded.
    ImageLoaded,
    /// A profile file was read; it may carry a saved calibration.
    ProfileLoaded(Option<u32>),
    /// A profile file could not be read.
    ProfileRejected,
    /// Learning gave a new α-map.
    MapLearned,
    /// The batch's images are too small for the tile size.
    LearnFailed,
}

/// The work an event asks for once the settings are updated.
#[derive(Clone, Copy, PartialEq, Eq, Debug, Structural)]
pub enum Action {
    Nothing,
    /// Ask for an image file and load it.
    PickImage,
    /// Remove the mark again with the current settings.
    Rerun,
    /// Store the opacity calibration, then remove the mark again.
    StoreStrengthAndRerun,
    /// Redraw the result preview.
    RefreshPreview,
    /// Ask where to save the result and save it.
    SaveResult,
    /// Ask for images and add them to the learning batch.
    PickLearnImages,
    /// Learn a profile from the batch.
    Learn,
    /// Tell the user that the batch is too small to learn from.
    NeedMoreImages,
    /// Ask where to save the profile and save it.
    SaveProfile,
    /// Ask for a profile file and load it.
    LoadProfile,
    /// Load the dropped file as the image to clean.
    OpenDropped,
    /// Add the dropped file to the learning batch.
    AddDroppedToBatch,
    /// Use the profile just read (storing the calibration it carried, if
    /// any), show and keep it, and remove the mark again.
    AdoptLoadedProfile { store_strength: bool },
    /// Tell the user that the profile file is not valid.
    ReportBadProfile,
    /// Use the learned map, show and keep the profile, and remove the mark
    /// again.
    AdoptLearnedMap,
    /// Tell the user that the images are too small for the tile size.
    ReportImagesTooSmall,
}

/// The fewest images that learning is attempted from.
pub const MIN_LEARN_IMAGES: usize = 6;

/// The settings after `e`, and the work it asks for.
pub open spec fn step_spec(s: Settings, e: Event) -> (Settings, Action) {
    match e {
        Event::Tab(t) => (Settings { tab: t, ..s }, Action::Nothing),
        Event::OpenImage => (s, Action::PickImage),
        Event::CornerChanged(c) => (Settings { corner_sel: c, ..s }, Action::Rerun),
        Event::NudgeX(v) => (Settings { nudge_x: v, ..s }, Action::Rerun),
        Event::NudgeY(v) => (Settings { nudge_y: v, ..s }, Action::Rerun),
        Event::Color(v) => (Settings { color_hex: v, ..s }, Action::Rerun),
        Event::Strength(v) => (Settings { strength: v, ..s }, Action::StoreStrengthAndRerun),
        Event::ToggleOutline(b) => (Settings { show_outline: b, ..s }, Action::RefreshPreview),
        Event::ToggleBefore(b) => (Settings { show_before: b, ..s }, Action::RefreshPreview),
        Event::ToggleZoom(b) => (Settings { show_zoom: b, ..s }, Action::RefreshPreview),
        Event::Save => (s, Action::SaveResult),
        Event::AddLearnImages => (s, Action::PickLearnImages),
        Event::LearnCorner(c) => (Settings { learn_corner: c, ..s }, Action::Nothing),
        Event::LearnSize(z) => (Settings { learn_size: z, ..s }, Action::Nothing),
        Event::DoLearn(n) => (
            s,
            if n >= MIN_LEARN_IMAGES {
                Action::Learn
            } else {
                Action::NeedMoreImages
            },
        ),
        Event::SaveProfile => (s, Action::SaveProfile),
        Event::LoadProfile => (s, Action::LoadProfile),
        Event::FileDropped => (
            s,
            match s.tab {
                Tab::Remove => Action::OpenDropped,
                Tab::Watermark => Action::AddDroppedToBatch,
                Tab::About => Action::Nothing,
            },
        ),
        Event::ImageLoaded => (Settings { tab: Tab::Remove, ..s }, Action::Rerun),
        Event::ProfileLoaded(cal) => match cal {
            Some(c) => (
                Settings { strength: c as i32, ..s },
                Action::AdoptLoadedProfile { store_strength: true },
            ),
            None => (s, Action::AdoptLoadedProfile { store_strength: false }),
        },
        Event::ProfileRejected => (s, Action::ReportBadProfile),
        Event::MapLearned => (s, Action::AdoptLearnedMap),
        Event::LearnFailed => (s, Action::ReportImagesTooSmall),
    }
}

/// Applies event `e` to the settings and says what work follows: a changed
/// placement, nudge, colour or calibration reruns the removal; a changed view
/// toggle redraws the preview; a dropped file goes to the page shown; a newly
/// loaded image switches to the removal page; learning needs a batch of at
/// least `MIN_LEARN_IMAGES`; a loaded profile that carries a calibration sets
/// the calibration (as `c as i32` does) and has it stored.
pub fn step(s: &mut Settings, e: Event) -> (a: Action)
    ensures
        (*final(s), a) == step_spec(*old(s), e),
{
    match e {
        Event::Tab(t) => {
            s.tab = t;
            Action::Nothing
        },
        Event::OpenImage => Action::PickImage,
        Event::CornerChanged(c) => {
            s.corner_sel = c;
            Action::Rerun
        },
        Event::NudgeX(v) => {
            s.nudge_x = v;
            Action::Rerun
        },
        Event::NudgeY(v) => {
            s.nudge_y = v;
            Action::Rerun
        },
        Event::Color(v) => {
            s.color_hex = v;
            Action::Rerun
        },
        Event::Strength(v) => {
            s.strength = v;
            Action::StoreStrengthAndRerun
        },
        Event::ToggleOutline(b) => {
            s.show_outline = b;
            Action::RefreshPreview
        },
        Event::ToggleBefore(b) => {
            s.show_before = b;
            Action::RefreshPreview
        },
        Event::ToggleZoom(b) => {
            s.show_zoom = b;
            Action::RefreshPreview
        },
        Event::Save => Action::SaveResult,
        Event::AddLearnImages => Action::PickLearnImages,
        Event::LearnCorner(c) => {
            s.learn_corner = c;
            Action::Nothing
        },
        Event::LearnSize(z) => {
            s.learn_size = z;
            Action::Nothing
        },
        Event::DoLearn(n) => {
            if n >= MIN_LEARN_IMAGES {
                Action::Learn
            } else {
                Action::NeedMoreImages
            }
        },
        Event::SaveProfile => Action::SaveProfile,
        Event::LoadProfile => Action::LoadProfile,
        Event::FileDropped => match s.tab {
            Tab::Remove => Action::OpenDropped,
            Tab::Watermark => Action::AddDroppedToBatch,
            Tab::About => Action::Nothing,
        },
        Event::ImageLoaded => {
            s.tab = Tab::Remove;
            Action::Rerun
        },
        Event::ProfileLoaded(cal) => match cal {
            Some(c) => {
                s.strength = c as i32;
                Action::AdoptLoadedProfile { store_strength: true }
            },
            None => Action::AdoptLoadedProfile { store_strength: false },
        },
        Event::ProfileRejected => Action::ReportBadProfile,
        Event::MapLearned => Action::AdoptLearnedMap,
        Event::LearnFailed => Action::ReportImagesTooSmall,
    }
}

} // verus!
