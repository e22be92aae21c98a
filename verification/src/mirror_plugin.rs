//! The mirror plugin: reads `horizontal` and `vertical` switches from its
//! parameter text and mirrors an RGBA buffer in place.
use vstd::prelude::*;
use crate::layout::{rgba_buffer_len, rgba_len_spec};
use crate::mirror::{
    lemma_mirror_horizontal_involution, lemma_mirror_vertical_involution, lemma_mirrors_commute,
    mirror_horizontal, mirror_vertical, mirrored_horizontally, mirrored_vertically,
};
use crate::params::{
    bytes_view, equals_word, parse_bool_spec, scan_pairs, strings_of_pairs, text_pairs, utf8_text,
};
pub use crate::params::parse_bool;

verus! {

/// Which mirrors the plugin applies.
#[derive(Clone, Copy, Debug)]
pub struct MirrorParams {
    /// Mirror left to right.
    pub horizontal: bool,
    /// Mirror top to bottom.
    pub vertical: bool,
}

impl Default for MirrorParams {
    fn default() -> (r: Self)
        ensures
            !r.horizontal,
            !r.vertical,
    {
        MirrorParams { horizontal: false, vertical: false }
    }
}

pub open spec fn word_horizontal() -> Seq<char> {
    seq!['h', 'o', 'r', 'i', 'z', 'o', 'n', 't', 'a', 'l']
}

pub open spec fn word_vertical() -> Seq<char> {
    seq!['v', 'e', 'r', 't', 'i', 'c', 'a', 'l']
}

/// What one `key=value` pair does to the switches `(horizontal,
/// vertical)`: a known key with a value that reads as a boolean sets its
/// switch; anything else is ignored.
pub open spec fn mirror_setting(cfg: (bool, bool), kv: (Seq<char>, Seq<char>)) -> (bool, bool) {
    if kv.0 == word_horizontal() {
        match parse_bool_spec(kv.1) {
            Some(v) => (v, cfg.1),
            None => cfg,
        }
    } else if kv.0 == word_vertical() {
        match parse_bool_spec(kv.1) {
            Some(v) => (cfg.0, v),
            None => cfg,
        }
    } else {
        cfg
    }
}

/// The switches after the pairs, applied in order to both switches off.
pub open spec fn mirror_settings(pairs: Seq<(Seq<char>, Seq<char>)>) -> (bool, bool)
    decreases pairs.len(),
{
    if pairs.len() == 0 {
        (false, false)
    } else {
        mirror_setting(mirror_settings(pairs.drop_last()), pairs.last())
    }
}

/// The text that the raw parameter bytes stand for: none, or bytes that
/// are not well-formed UTF-8, read as the empty text.
pub open spec fn mirror_text(params: Option<Seq<u8>>) -> Seq<char> {
    match params {
        None => Seq::empty(),
        Some(b) => if vstd::utf8::valid_utf8(b) {
            vstd::utf8::decode_utf8(b)
        } else {
            Seq::empty()
        },
    }
}

/// The switches that the raw parameter bytes give.
pub open spec fn mirror_params_spec(params: Option<Seq<u8>>) -> (bool, bool) {
    mirror_settings(text_pairs(mirror_text(params)))
}

/// The key/value pairs of `text`, keys and values trimmed and in lower
/// case; entries without `=` or `:` are skipped.
pub fn parse_pairs(text: &str) -> (r: Vec<(String, String)>)
    ensures
        r.deep_view() == text_pairs(text@),
{
    let (pairs, _) = scan_pairs(text);
    strings_of_pairs(&pairs)
}

fn parse_text(text: &str) -> (r: MirrorParams)
    ensures
        mirror_settings(text_pairs(text@)) == (r.horizontal, r.vertical),
{
    let (pairs, _) = scan_pairs(text);
    let ghost all = pairs.deep_view();
    let horizontal_word = ['h', 'o', 'r', 'i', 'z', 'o', 'n', 't', 'a', 'l'];
    let vertical_word = ['v', 'e', 'r', 't', 'i', 'c', 'a', 'l'];
    proof {
        assert(horizontal_word@ =~= word_horizontal());
        assert(vertical_word@ =~= word_vertical());
    }
    let mut out = MirrorParams::default();
    let mut k: usize = 0;
    while k < pairs.len()
        invariant
            all == pairs.deep_view(),
            all == text_pairs(text@),
            horizontal_word@ == word_horizontal(),
            vertical_word@ == word_vertical(),
            k <= pairs.len(),
            mirror_settings(all.subrange(0, k as int)) == (out.horizontal, out.vertical),
        decreases pairs.len() - k,
    {
        let key = &pairs[k].0;
        let value = &pairs[k].1;
        proof {
            assert(all.subrange(0, k + 1).drop_last() =~= all.subrange(0, k as int));
            assert(all[k as int].0 =~= key@);
            assert(all[k as int].1 =~= value@);
        }
        if equals_word(key, horizontal_word.as_slice()) {
            if let Some(v) = parse_bool(value) {
                out.horizontal = v;
            }
        } else if equals_word(key, vertical_word.as_slice()) {
            if let Some(v) = parse_bool(value) {
                out.vertical = v;
            }
        }
        k = k + 1;
    }
    proof {
        assert(all.subrange(0, pairs.len() as int) =~= all);
    }
    out
}

/// Reads the mirror switches from the raw parameter bytes (`None` standing
/// for no parameter text at all); bytes that are not well-formed UTF-8
/// read as an empty text.
pub fn parse_params(params: Option<&[u8]>) -> (r: MirrorParams)
    ensures
        mirror_params_spec(bytes_view(params)) == (r.horizontal, r.vertical),
{
    proof {
        reveal_strlit("");
    }
    match params {
        None => parse_text(""),
        Some(bytes) => match utf8_text(bytes) {
            Some(text) => parse_text(text),
            None => parse_text(""),
        },
    }
}

/// The switches the plugin acts on: those read, except that with neither
/// switch on it mirrors left to right.
pub open spec fn effective_switches(cfg: (bool, bool)) -> (bool, bool) {
    if !cfg.0 && !cfg.1 {
        (true, false)
    } else {
        cfg
    }
}

/// The buffer after the mirrors that the switches call for: left to right
/// first, then top to bottom.
pub open spec fn mirrored(img: Seq<u8>, w: int, h: int, cfg: (bool, bool)) -> Seq<u8> {
    let sw = effective_switches(cfg);
    let a = if sw.0 {
        mirrored_horizontally(img, w, h)
    } else {
        img
    };
    if sw.1 {
        mirrored_vertically(a, w, h)
    } else {
        a
    }
}

/// The value of the last pair with key `key` whose value reads as a
/// boolean, if any.
pub open spec fn last_switch(pairs: Seq<(Seq<char>, Seq<char>)>, key: Seq<char>) -> Option<bool>
    decreases pairs.len(),
{
    if pairs.len() == 0 {
        None
    } else if pairs.last().0 == key && parse_bool_spec(pairs.last().1) is Some {
        parse_bool_spec(pairs.last().1)
    } else {
        last_switch(pairs.drop_last(), key)
    }
}

/// Each switch is the value of its own last readable entry, and off where
/// it has none: an entry for one switch never changes the other, so the
/// order of the `horizontal` and `vertical` entries does not matter.
pub proof fn lemma_mirror_switches_last_entry_wins(pairs: Seq<(Seq<char>, Seq<char>)>)
    ensures
        mirror_settings(pairs) == (
            match last_switch(pairs, word_horizontal()) {
                Some(v) => v,
                None => false,
            },
            match last_switch(pairs, word_vertical()) {
                Some(v) => v,
                None => false,
            },
        ),
    decreases pairs.len(),
{
    if pairs.len() > 0 {
        lemma_mirror_switches_last_entry_wins(pairs.drop_last());
        assert(word_horizontal() != word_vertical()) by {
            assert(word_horizontal().len() != word_vertical().len());
        }
    }
}

/// The mirrors applied follow the switches read: where at least one
/// switch is on, exactly the switches that are on are applied (left to
/// right first); where both are off, the image is mirrored left to right.
pub proof fn lemma_mirror_applies_switches(img: Seq<u8>, w: int, h: int, cfg: (bool, bool))
    ensures
        cfg == (true, false) ==> mirrored(img, w, h, cfg) == mirrored_horizontally(img, w, h),
        cfg == (false, true) ==> mirrored(img, w, h, cfg) == mirrored_vertically(img, w, h),
        cfg == (true, true) ==> mirrored(img, w, h, cfg) == mirrored_vertically(
            mirrored_horizontally(img, w, h),
            w,
            h,
        ),
        cfg == (false, false) ==> mirrored(img, w, h, cfg) == mirrored_horizontally(img, w, h),
{
}

/// Mirrors the `width` by `height` RGBA image in `rgba_data` as the
/// parameter bytes say (`None` stands for a missing buffer or a missing
/// parameter text). Without a buffer, or where the image's size does not
/// fit in a `usize`, nothing happens.
pub fn process_image(width: u32, height: u32, rgba_data: Option<&mut [u8]>, params: Option<&[u8]>)
    requires
        rgba_data matches Some(d) ==> (rgba_len_spec(width as int, height as int) <= usize::MAX
            ==> d@.len() == rgba_len_spec(width as int, height as int)),
    ensures
        rgba_data matches Some(d) ==> final(d)@ == if rgba_len_spec(width as int, height as int)
            <= usize::MAX {
            mirrored(d@, width as int, height as int, mirror_params_spec(bytes_view(params)))
        } else {
            d@
        },
{
    let data = match rgba_data {
        Some(d) => d,
        None => return ,
    };
    match rgba_buffer_len(width, height) {
        Some(_) => {},
        None => return ,
    }
    let mut cfg = parse_params(params);
    if !cfg.horizontal && !cfg.vertical {
        cfg.horizontal = true;
    }
    let w = width as usize;
    let h = height as usize;
    if cfg.horizontal {
        mirror_horizontal(data, w, h);
    }
    if cfg.vertical {
        mirror_vertical(data, w, h);
    }
}


/// Running the mirror plugin a second time with the same switches gives
/// back the image it started from.
pub proof fn lemma_mirror_plugin_twice_restores(img: Seq<u8>, w: int, h: int, cfg: (bool, bool))
    requires
        0 <= w,
        0 <= h,
        img.len() >= rgba_len_spec(w, h),
    ensures
        mirrored(mirrored(img, w, h, cfg), w, h, cfg) == img,
{
    let sw = effective_switches(cfg);
    let hx = mirrored_horizontally(img, w, h);
    if sw.0 && sw.1 {
        let vhx = mirrored_vertically(hx, w, h);
        let hvhx = mirrored_horizontally(vhx, w, h);
        lemma_mirrors_commute(hx, w, h);
        lemma_mirror_horizontal_involution(img, w, h);
        lemma_mirror_vertical_involution(hx, w, h);
        assert(mirrored_horizontally(vhx, w, h) == mirrored_vertically(
            mirrored_horizontally(hx, w, h),
            w,
            h,
        ));
        lemma_mirror_vertical_involution(img, w, h);
    } else if sw.0 {
        lemma_mirror_horizontal_involution(img, w, h);
    } else if sw.1 {
        lemma_mirror_vertical_involution(img, w, h);
    }
}

} // verus!
