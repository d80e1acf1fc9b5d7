//! Images as the remover handles them, and the integer side of learning a
//! watermark profile from a batch of images.
use vstd::prelude::*;
use crate::controls::CornerSel;
use crate::ui::SizeSel;
use crate::profile::wanted_size;

verus! {

/// A decoded image: RGBA8 pixels, row-major, plus its dimensions and source
/// file name.
#[derive(Clone)]
pub struct LoadedImage {
    pub rgba: Vec<u8>,
    pub w: usize,
    pub h: usize,
    pub name: String,
}

/// Side of the square window that blind learning stacks across a batch: four
/// tiles wide, cut down to the smallest image side.
pub open spec fn learn_crop_spec(dims: Seq<(usize, usize)>, size: int) -> int
    decreases dims.len(),
{
    if dims.len() == 0 {
        4 * size
    } else {
        let rest = learn_crop_spec(dims.drop_last(), size);
        let (w, h) = dims.last();
        let m = if w < h { w as int } else { h as int };
        if m < rest { m } else { rest }
    }
}

/// The window is no wider than any image of the batch.
proof fn lemma_learn_crop_within(dims: Seq<(usize, usize)>, size: int)
    ensures
        forall|k: int|
            0 <= k < dims.len() ==> learn_crop_spec(dims, size) <= (#[trigger] dims[k]).0
                && learn_crop_spec(dims, size) <= dims[k].1,
    decreases dims.len(),
{
    if dims.len() > 0 {
        let rest = dims.drop_last();
        lemma_learn_crop_within(rest, size);
        assert forall|k: int| 0 <= k < dims.len() implies learn_crop_spec(dims, size)
            <= (#[trigger] dims[k]).0 && learn_crop_spec(dims, size) <= dims[k].1 by {
            if k < dims.len() - 1 {
                assert(dims[k] == rest[k]);
            }
        }
    }
}

/// The dimensions of a batch of images.
pub open spec fn batch_dims(imgs: Seq<LoadedImage>) -> Seq<(usize, usize)> {
    imgs.map_values(|im: LoadedImage| (im.w, im.h))
}

/// The learning window for a batch and a tile size: `None` when the batch is
/// empty or its smallest side leaves less than `size + 8` pixels, else the side
/// of the stacked window, `min(4·size, smallest width, smallest height)`.
pub fn learn_crop(imgs: &[LoadedImage], size: usize) -> (r: Option<usize>)
    requires
        imgs@.len() > 0 ==> 4 * size <= usize::MAX,
    ensures
        match r {
            None => imgs@.len() == 0 || learn_crop_spec(batch_dims(imgs@), size as int) < size
                + 8,
            Some(c) => imgs@.len() > 0 && c == learn_crop_spec(batch_dims(imgs@), size as int)
                && c >= size + 8,
        },
        r matches Some(c) ==> forall|k: int|
            0 <= k < imgs@.len() ==> c <= #[trigger] imgs@[k].w && c <= imgs@[k].h,
{
    if imgs.len() == 0 {
        return None;
    }
    let mut crop = 4 * size;
    let mut i: usize = 0;
    while i < imgs.len()
        invariant
            0 <= i <= imgs@.len(),
            crop as int == learn_crop_spec(batch_dims(imgs@).subrange(0, i as int), size as int),
        decreases imgs@.len() - i,
    {
        let im = &imgs[i];
        let m = if im.w < im.h {
            im.w
        } else {
            im.h
        };
        if m < crop {
            crop = m;
        }
        proof {
            let d = batch_dims(imgs@);
            assert(d.subrange(0, i + 1).drop_last() =~= d.subrange(0, i as int));
            assert(d.subrange(0, i + 1).last() == (im.w, im.h));
        }
        i = i + 1;
    }
    assert(batch_dims(imgs@).subrange(0, imgs@.len() as int) =~= batch_dims(imgs@));
    proof {
        let d = batch_dims(imgs@);
        lemma_learn_crop_within(d, size as int);
        assert forall|k: int| 0 <= k < imgs@.len() implies crop <= #[trigger] imgs@[k].w && crop
            <= imgs@[k].h by {
            assert(d[k] == (imgs@[k].w, imgs@[k].h));
        }
    }
    if crop < size || crop - size < 8 {
        None
    } else {
        Some(crop)
    }
}

/// Top-left corner of the learning window of side `crop` in a `w`×`h` image:
/// the window hugs the chosen corner, so it starts at `w - crop` for a
/// right-hand corner and at `h - crop` for a bottom one, else at 0.
pub open spec fn window_origin_spec(corner: CornerSel, w: int, h: int, crop: int) -> (int, int) {
    (
        if corner == CornerSel::Br || corner == CornerSel::Tr {
            w - crop
        } else {
            0
        },
        if corner == CornerSel::Bl || corner == CornerSel::Br {
            h - crop
        } else {
            0
        },
    )
}

/// The learning window's top-left corner in a `w`×`h` image
/// (`window_origin_spec`).
pub fn learn_window_origin(corner: CornerSel, w: usize, h: usize, crop: usize) -> (r: (usize, usize))
    requires
        crop <= w,
        crop <= h,
    ensures
        (r.0 as int, r.1 as int) == window_origin_spec(corner, w as int, h as int, crop as int),
{
    let x = match corner {
        CornerSel::Br | CornerSel::Tr => w - crop,
        _ => 0,
    };
    let y = match corner {
        CornerSel::Bl | CornerSel::Br => h - crop,
        _ => 0,
    };
    (x, y)
}

/// The window that learning stacks lies inside every image of the batch,
/// whichever corner it is placed in.
pub proof fn lemma_learn_window_inside(imgs: Seq<LoadedImage>, size: int, corner: CornerSel, k: int)
    requires
        0 <= k < imgs.len(),
    ensures
        ({
            let c = learn_crop_spec(batch_dims(imgs), size);
            let (x, y) = window_origin_spec(corner, imgs[k].w as int, imgs[k].h as int, c);
            &&& 0 <= x
            &&& 0 <= y
            &&& x + c <= imgs[k].w
            &&& y + c <= imgs[k].h
        }),
{
    let d = batch_dims(imgs);
    lemma_learn_crop_within(d, size);
    assert(d[k] == (imgs[k].w, imgs[k].h));
}

/// Number of images in the batch whose sides are both at least 1024px.
pub open spec fn count_large(dims: Seq<(usize, usize)>) -> int
    decreases dims.len(),
{
    if dims.len() == 0 {
        0
    } else {
        count_large(dims.drop_last()) + if dims.last().0 >= 1024 && dims.last().1 >= 1024 {
            1int
        } else {
            0int
        }
    }
}

/// Tile size to learn when none is chosen: 96 when at least half of the batch
/// is large (both sides at least 1024px), else 48.
pub open spec fn auto_learn_size_spec(imgs: Seq<LoadedImage>) -> usize {
    if 2 * count_large(batch_dims(imgs)) >= imgs.len() {
        96
    } else {
        48
    }
}

/// The tile size to learn when none is chosen (`auto_learn_size_spec`).
pub fn auto_learn_size(imgs: &[LoadedImage]) -> (s: usize)
    ensures
        s == auto_learn_size_spec(imgs@),
{
    let mut big: usize = 0;
    let mut i: usize = 0;
    while i < imgs.len()
        invariant
            0 <= i <= imgs@.len(),
            big as int == count_large(batch_dims(imgs@).subrange(0, i as int)),
            big <= i,
        decreases imgs@.len() - i,
    {
        let im = &imgs[i];
        proof {
            let d = batch_dims(imgs@);
            assert(d.subrange(0, i + 1).drop_last() =~= d.subrange(0, i as int));
            assert(d.subrange(0, i + 1).last() == (im.w, im.h));
        }
        if im.w >= 1024 && im.h >= 1024 {
            big = big + 1;
        }
        i = i + 1;
    }
    assert(batch_dims(imgs@).subrange(0, imgs@.len() as int) =~= batch_dims(imgs@));
    if big >= imgs.len() - big {
        96
    } else {
        48
    }
}

/// The tile size to learn from a batch: the size chosen, or for `Auto` the
/// one that the batch's image sizes call for.
pub fn learn_size_for(sel: SizeSel, imgs: &[LoadedImage]) -> (s: usize)
    ensures
        s == match sel {
            SizeSel::S96 => 96,
            SizeSel::S48 => 48,
            SizeSel::Auto => auto_learn_size_spec(imgs@),
        },
{
    match sel {
        SizeSel::S96 => 96,
        SizeSel::S48 => 48,
        SizeSel::Auto => auto_learn_size(imgs),
    }
}

/// Counting the large images: none when no image has both sides at least
/// 1024px, all of them when every image has.
proof fn lemma_count_large_extremes(dims: Seq<(usize, usize)>)
    ensures
        (forall|k: int| 0 <= k < dims.len() ==> !((#[trigger] dims[k]).0 >= 1024 && dims[k].1 >= 1024))
            ==> count_large(dims) == 0,
        (forall|k: int| 0 <= k < dims.len() ==> (#[trigger] dims[k]).0 >= 1024 && dims[k].1 >= 1024)
            ==> count_large(dims) == dims.len(),
    decreases dims.len(),
{
    if dims.len() > 0 {
        let rest = dims.drop_last();
        lemma_count_large_extremes(rest);
        assert forall|k: int| 0 <= k < rest.len() implies #[trigger] rest[k] == dims[k] by {}
        assert(dims.last() == dims[dims.len() - 1]);
    }
}

/// A non-empty batch in which no image has both sides at least 1024px learns
/// the 48px tile, and a batch in which every image has learns the 96px tile;
/// a batch of one image learns the tile size that image is given.
pub proof fn lemma_auto_learn_size_tiers(imgs: Seq<LoadedImage>)
    ensures
        imgs.len() > 0 && (forall|k: int|
            0 <= k < imgs.len() ==> !((#[trigger] imgs[k]).w >= 1024 && imgs[k].h >= 1024))
            ==> auto_learn_size_spec(imgs) == 48,
        (forall|k: int| 0 <= k < imgs.len() ==> (#[trigger] imgs[k]).w >= 1024 && imgs[k].h >= 1024)
            ==> auto_learn_size_spec(imgs) == 96,
        imgs.len() == 1 ==> auto_learn_size_spec(imgs) == wanted_size(imgs[0].w as int, imgs[0].h as int),
{
    let d = batch_dims(imgs);
    lemma_count_large_extremes(d);
    assert forall|k: int| 0 <= k < imgs.len() implies #[trigger] d[k] == (imgs[k].w, imgs[k].h) by {}
    if imgs.len() == 1 {
        assert(d.drop_last().len() == 0);
        assert(d.last() == (imgs[0].w, imgs[0].h));
    }
}

/// An image is large when both its sides are at least 1024px.
pub open spec fn is_large(im: LoadedImage) -> bool {
    im.w >= 1024 && im.h >= 1024
}

proof fn lemma_count_large_filter(imgs: Seq<LoadedImage>)
    ensures
        count_large(batch_dims(imgs)) == imgs.filter(|im: LoadedImage| is_large(im)).len(),
    decreases imgs.len(),
{
    reveal(Seq::filter);
    if imgs.len() > 0 {
        let rest = imgs.drop_last();
        lemma_count_large_filter(rest);
        assert(batch_dims(imgs).drop_last() =~= batch_dims(rest));
        assert(batch_dims(imgs).last() == (imgs.last().w, imgs.last().h));
    }
}

/// The 96px tile is learned exactly when at least half of the batch's images
/// have both sides at least 1024px (an empty batch included), else the 48px
/// tile.
pub proof fn lemma_auto_learn_size_majority(imgs: Seq<LoadedImage>)
    ensures
        auto_learn_size_spec(imgs) == (if 2 * imgs.filter(|im: LoadedImage| is_large(im)).len()
            >= imgs.len() {
            96usize
        } else {
            48usize
        }),
{
    lemma_count_large_filter(imgs);
}

proof fn lemma_learn_crop_attained(dims: Seq<(usize, usize)>, size: int)
    ensures
        learn_crop_spec(dims, size) <= 4 * size,
        learn_crop_spec(dims, size) == 4 * size || exists|k: int|
            0 <= k < dims.len() && (learn_crop_spec(dims, size) == (#[trigger] dims[k]).0
                || learn_crop_spec(dims, size) == dims[k].1),
    decreases dims.len(),
{
    if dims.len() > 0 {
        let rest = dims.drop_last();
        lemma_learn_crop_attained(rest, size);
        let c = learn_crop_spec(dims, size);
        let last = dims.len() - 1;
        assert(dims[last] == dims.last());
        if c != 4 * size && c == learn_crop_spec(rest, size) {
            let k = choose|k: int|
                0 <= k < rest.len() && (learn_crop_spec(rest, size) == (#[trigger] rest[k]).0
                    || learn_crop_spec(rest, size) == rest[k].1);
            assert(rest[k] == dims[k]);
        }
    }
}

/// The learning window is as wide as four tiles or the smallest side of the
/// batch, whichever is smaller: it is no wider than four tiles and no wider
/// than any image's width or height, and it equals one of these.
pub proof fn lemma_learn_crop_is_smallest(imgs: Seq<LoadedImage>, size: int)
    ensures
        ({
            let c = learn_crop_spec(batch_dims(imgs), size);
            &&& c <= 4 * size
            &&& forall|k: int| 0 <= k < imgs.len() ==> c <= (#[trigger] imgs[k]).w && c <= imgs[k].h
            &&& (c == 4 * size || exists|k: int|
                0 <= k < imgs.len() && (c == (#[trigger] imgs[k]).w || c == imgs[k].h))
        }),
{
    let d = batch_dims(imgs);
    let c = learn_crop_spec(d, size);
    lemma_learn_crop_within(d, size);
    lemma_learn_crop_attained(d, size);
    assert forall|k: int| 0 <= k < imgs.len() implies c <= (#[trigger] imgs[k]).w && c
        <= imgs[k].h by {
        assert(d[k] == (imgs[k].w, imgs[k].h));
    }
    if c != 4 * size {
        let k = choose|k: int|
            0 <= k < d.len() && (c == (#[trigger] d[k]).0 || c == d[k].1);
        assert(d[k] == (imgs[k].w, imgs[k].h));
    }
}

/// The learning window sits in the chosen corner: its right edge on the
/// image's right edge for the right-hand corners and its left edge on 0
/// otherwise, its bottom edge on the image's bottom for the bottom corners and
/// its top edge on 0 otherwise.
pub proof fn lemma_learn_window_corner(corner: CornerSel, w: int, h: int, crop: int)
    ensures
        ({
            let (x, y) = window_origin_spec(corner, w, h, crop);
            &&& (corner == CornerSel::Br || corner == CornerSel::Tr) ==> x + crop == w
            &&& (corner == CornerSel::Bl || corner == CornerSel::Tl || corner == CornerSel::Auto)
                ==> x == 0
            &&& (corner == CornerSel::Br || corner == CornerSel::Bl) ==> y + crop == h
            &&& (corner == CornerSel::Tr || corner == CornerSel::Tl || corner == CornerSel::Auto)
                ==> y == 0
        }),
{
}

} // verus!
