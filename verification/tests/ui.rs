use watermark_remover::controls::CornerSel;
use watermark_remover::ui::{step, Action, Event, Settings, SizeSel, Tab, MIN_LEARN_IMAGES};

fn settings() -> Settings {
    Settings {
        tab: Tab::Watermark,
        corner_sel: CornerSel::Auto,
        nudge_x: "0".to_string(),
        nudge_y: "0".to_string(),
        color_hex: "#ffffff".to_string(),
        strength: 100,
        show_outline: true,
        show_before: false,
        show_zoom: false,
        learn_corner: CornerSel::Br,
        learn_size: SizeSel::Auto,
    }
}

#[test]
fn placement_edits_rerun_the_removal() {
    let mut s = settings();
    assert_eq!(step(&mut s, Event::CornerChanged(CornerSel::Tl)), Action::Rerun);
    assert_eq!(s.corner_sel, CornerSel::Tl);
    assert_eq!(step(&mut s, Event::NudgeX("4".to_string())), Action::Rerun);
    assert_eq!(s.nudge_x, "4");
    assert_eq!(step(&mut s, Event::NudgeY("-2".to_string())), Action::Rerun);
    assert_eq!(s.nudge_y, "-2");
    assert_eq!(step(&mut s, Event::Color("#000000".to_string())), Action::Rerun);
    assert_eq!(s.color_hex, "#000000");
    assert_eq!(step(&mut s, Event::Strength(140)), Action::StoreStrengthAndRerun);
    assert_eq!(s.strength, 140);
    // Nothing else moved.
    assert_eq!(s.tab, Tab::Watermark);
    assert!(s.show_outline && !s.show_before && !s.show_zoom);
    assert_eq!(s.learn_corner, CornerSel::Br);
}

#[test]
fn view_toggles_redraw_the_preview() {
    let mut s = settings();
    assert_eq!(step(&mut s, Event::ToggleOutline(false)), Action::RefreshPreview);
    assert_eq!(step(&mut s, Event::ToggleBefore(true)), Action::RefreshPreview);
    assert_eq!(step(&mut s, Event::ToggleZoom(true)), Action::RefreshPreview);
    assert!(!s.show_outline && s.show_before && s.show_zoom);
    assert_eq!(s.corner_sel, CornerSel::Auto);
}

#[test]
fn dropped_files_go_to_the_page_shown() {
    let mut s = settings();
    assert_eq!(step(&mut s, Event::FileDropped), Action::AddDroppedToBatch);
    assert_eq!(step(&mut s, Event::Tab(Tab::Remove)), Action::Nothing);
    assert_eq!(step(&mut s, Event::FileDropped), Action::OpenDropped);
    assert_eq!(step(&mut s, Event::Tab(Tab::About)), Action::Nothing);
    assert_eq!(step(&mut s, Event::FileDropped), Action::Nothing);
    assert_eq!(s.tab, Tab::About);
}

#[test]
fn a_loaded_image_switches_to_the_removal_page() {
    let mut s = settings();
    assert_eq!(step(&mut s, Event::ImageLoaded), Action::Rerun);
    assert_eq!(s.tab, Tab::Remove);
}

#[test]
fn learning_needs_enough_images() {
    let mut s = settings();
    assert_eq!(MIN_LEARN_IMAGES, 6);
    assert_eq!(step(&mut s, Event::DoLearn(0)), Action::NeedMoreImages);
    assert_eq!(step(&mut s, Event::DoLearn(5)), Action::NeedMoreImages);
    assert_eq!(step(&mut s, Event::DoLearn(6)), Action::Learn);
    assert_eq!(step(&mut s, Event::DoLearn(40)), Action::Learn);
    assert_eq!(step(&mut s, Event::LearnCorner(CornerSel::Tr)), Action::Nothing);
    assert_eq!(step(&mut s, Event::LearnSize(SizeSel::S48)), Action::Nothing);
    assert_eq!(s.learn_corner, CornerSel::Tr);
    assert_eq!(s.learn_size, SizeSel::S48);
}

#[test]
fn dialogs_and_saving_leave_the_settings() {
    let mut s = settings();
    assert_eq!(step(&mut s, Event::OpenImage), Action::PickImage);
    assert_eq!(step(&mut s, Event::Save), Action::SaveResult);
    assert_eq!(step(&mut s, Event::AddLearnImages), Action::PickLearnImages);
    assert_eq!(step(&mut s, Event::SaveProfile), Action::SaveProfile);
    assert_eq!(step(&mut s, Event::LoadProfile), Action::LoadProfile);
    assert_eq!(s.tab, Tab::Watermark);
    assert_eq!(s.strength, 100);
    assert_eq!(s.nudge_x, "0");
}

#[test]
fn outcomes_of_outside_work_decide_what_follows() {
    let mut s = settings();
    assert_eq!(
        step(&mut s, Event::ProfileLoaded(Some(135))),
        Action::AdoptLoadedProfile { store_strength: true }
    );
    assert_eq!(s.strength, 135);
    assert_eq!(
        step(&mut s, Event::ProfileLoaded(None)),
        Action::AdoptLoadedProfile { store_strength: false }
    );
    assert_eq!(s.strength, 135);
    // The calibration is taken over as `as i32` takes it.
    step(&mut s, Event::ProfileLoaded(Some(u32::MAX)));
    assert_eq!(s.strength, -1);
    assert_eq!(step(&mut s, Event::ProfileRejected), Action::ReportBadProfile);
    assert_eq!(step(&mut s, Event::MapLearned), Action::AdoptLearnedMap);
    assert_eq!(step(&mut s, Event::LearnFailed), Action::ReportImagesTooSmall);
    assert_eq!(s.tab, Tab::Watermark);
}
