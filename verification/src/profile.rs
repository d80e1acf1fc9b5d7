//! Choosing which of a profile's α-maps (keyed by tile size) to use for an
//! image and which to show, and reading the sizes of a profile file's entries.
use vstd::prelude::*;
use crate::controls::{parse_usize, parse_usize_spec};

verus! {

/// The tile size an image of `w`×`h` wants: 96 when both sides are at least
/// 1024px, else 48.
pub open spec fn wanted_size(w: int, h: int) -> usize {
    if w >= 1024 && h >= 1024 {
        96
    } else {
        48
    }
}

/// An image with a side below 1024px wants the 48px map and one with both
/// sides at least 1024px the 96px map: the size of the catalog's tier default
/// for that image.
pub proof fn lemma_wanted_size(w: int, h: int)
    ensures
        w < 1024 || h < 1024 ==> wanted_size(w, h) == 48,
        w >= 1024 && h >= 1024 ==> wanted_size(w, h) == 96,
        wanted_size(w, h) == crate::catalog::default_by_tier_spec(w, h).size,
{
}

/// `m` is the least element of `keys`.
pub open spec fn is_least(keys: Seq<usize>, m: usize) -> bool {
    &&& keys.contains(m)
    &&& forall|k: int| 0 <= k < keys.len() ==> m <= #[trigger] keys[k]
}

/// `want` when `keys` holds it, else the least of `keys`; `None` when empty.
fn wanted_or_least(keys: &[usize], want: usize) -> (r: Option<usize>)
    ensures
        keys@.len() == 0 ==> r is None,
        keys@.contains(want) ==> r == Some(want),
        keys@.len() > 0 && !keys@.contains(want) ==> (r matches Some(m) && is_least(keys@, m)),
{
    if keys.len() == 0 {
        return None;
    }
    let mut least = keys[0];
    let mut i: usize = 0;
    while i < keys.len()
        invariant
            keys@.len() > 0,
            0 <= i <= keys@.len(),
            keys@.contains(least),
            forall|k: int| 0 <= k < i ==> least <= #[trigger] keys@[k],
            forall|k: int| 0 <= k < i ==> #[trigger] keys@[k] != want,
        decreases keys@.len() - i,
    {
        if keys[i] == want {
            assert(keys@[i as int] == want);
            return Some(want);
        }
        if keys[i] < least {
            least = keys[i];
            assert(keys@[i as int] == least);
        }
        i = i + 1;
    }
    assert(!keys@.contains(want));
    Some(least)
}

/// Picks the tile size for a `w`×`h` image among the sizes `keys` of a
/// profile's α-maps: the wanted size when the profile has it, else the smallest
/// size present; `None` for an empty profile.
pub fn pick_size(keys: &[usize], w: usize, h: usize) -> (r: Option<usize>)
    ensures
        keys@.len() == 0 ==> r is None,
        keys@.contains(wanted_size(w as int, h as int)) ==> r == Some(wanted_size(w as int, h as int)),
        keys@.len() > 0 && !keys@.contains(wanted_size(w as int, h as int)) ==> (r matches Some(
            m,
        ) && is_least(keys@, m)),
        keys@.contains(48) && (w < 1024 || h < 1024) ==> r == Some(48usize),
        keys@.contains(96) && w >= 1024 && h >= 1024 ==> r == Some(96usize),
{
    proof {
        lemma_wanted_size(w as int, h as int);
    }
    let want: usize = if w >= 1024 && h >= 1024 {
        96
    } else {
        48
    };
    wanted_or_least(keys, want)
}

/// The tile size whose α-map the profile view shows: 96 when the profile has
/// it, else the smallest size present, and 96 for an empty profile.
pub fn preview_size(keys: &[usize]) -> (r: usize)
    ensures
        keys@.contains(96) || keys@.len() == 0 ==> r == 96,
        !keys@.contains(96) && keys@.len() > 0 ==> is_least(keys@, r),
{
    match wanted_or_least(keys, 96) {
        Some(s) => s,
        None => 96,
    }
}

/// The tile size that an α-map entry of a profile file stands for: its key
/// read as a `usize`, provided the entry holds exactly `size`×`size` values.
pub fn map_size(key: &str, len: usize) -> (r: Option<usize>)
    requires
        parse_usize_spec(key@) matches Some(sz) ==> sz * sz <= usize::MAX,
    ensures
        r == match parse_usize_spec(key@) {
            Some(sz) => if len == sz * sz {
                Some(sz)
            } else {
                None
            },
            None => None,
        },
{
    match parse_usize(key) {
        Some(sz) => if len == sz * sz {
            Some(sz)
        } else {
            None
        },
        None => None,
    }
}

} // verus!
