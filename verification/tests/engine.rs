use watermark_remover::controls::CornerSel;
use watermark_remover::engine::{auto_learn_size, learn_crop, learn_size_for, learn_window_origin, LoadedImage};
use watermark_remover::ui::SizeSel;

fn img(w: usize, h: usize) -> LoadedImage {
    LoadedImage { rgba: vec![0u8; 4], w, h, name: format!("{w}x{h}") }
}

#[test]
fn learn_crop_is_four_tiles_capped_by_smallest_side() {
    assert_eq!(learn_crop(&[img(1000, 800), img(900, 1200)], 96), Some(384));
    assert_eq!(learn_crop(&[img(200, 200)], 96), Some(200));
    assert_eq!(learn_crop(&[img(300, 150), img(400, 400)], 48), Some(150));
    // The window must leave at least 8 pixels beside the tile.
    assert_eq!(learn_crop(&[img(104, 500)], 96), Some(104));
    assert_eq!(learn_crop(&[img(103, 500)], 96), None);
    assert_eq!(learn_crop(&[], 96), None);
    // An empty batch gives no window whatever the size.
    assert_eq!(learn_crop(&[], usize::MAX), None);
}

#[test]
fn auto_learn_size_follows_the_majority() {
    assert_eq!(auto_learn_size(&[img(2048, 2048), img(500, 500)]), 96);
    assert_eq!(auto_learn_size(&[img(2048, 2048), img(500, 500), img(800, 1200)]), 48);
    assert_eq!(auto_learn_size(&[img(1024, 1023)]), 48);
    assert_eq!(auto_learn_size(&[img(1024, 1024)]), 96);
    assert_eq!(auto_learn_size(&[]), 96);
}

#[test]
fn learn_window_hugs_the_chosen_corner() {
    assert_eq!(learn_window_origin(CornerSel::Br, 1000, 800, 384), (616, 416));
    assert_eq!(learn_window_origin(CornerSel::Tr, 1000, 800, 384), (616, 0));
    assert_eq!(learn_window_origin(CornerSel::Bl, 1000, 800, 384), (0, 416));
    assert_eq!(learn_window_origin(CornerSel::Tl, 1000, 800, 384), (0, 0));
    assert_eq!(learn_window_origin(CornerSel::Auto, 1000, 800, 384), (0, 0));
    // A window as wide as the image starts at its edge.
    assert_eq!(learn_window_origin(CornerSel::Br, 200, 200, 200), (0, 0));
}

#[test]
fn learn_window_fits_every_image_of_the_batch() {
    let batch = [img(1000, 800), img(900, 1200), img(300, 2000)];
    let crop = learn_crop(&batch, 96).unwrap();
    assert_eq!(crop, 300);
    for im in &batch {
        let (x, y) = learn_window_origin(CornerSel::Br, im.w, im.h, crop);
        assert!(x + crop <= im.w && y + crop <= im.h);
    }
}

#[test]
fn learn_size_for_honours_a_fixed_choice() {
    let batch = [img(2048, 2048), img(500, 500)];
    assert_eq!(learn_size_for(SizeSel::S48, &batch), 48);
    assert_eq!(learn_size_for(SizeSel::S96, &[img(300, 300)]), 96);
    assert_eq!(learn_size_for(SizeSel::Auto, &batch), 96);
    assert_eq!(learn_size_for(SizeSel::Auto, &[img(300, 300), img(2048, 2048), img(600, 400)]), 48);
}
