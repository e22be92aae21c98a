//! The blur plugin: reads `radius` and `iterations` from its parameter
//! text and blurs an RGBA buffer in place.
use vstd::prelude::*;
use crate::blur::{apply_weighted_blur, blurred};
use crate::layout::{rgba_buffer_len, rgba_len_spec};
use crate::params::{
    bytes_view, equals_word, parse_usize, parse_usize_spec, scan_pairs, strings_of_pairs,
    text_has_malformed_entry, text_pairs, utf8_text,
};

verus! {

/// Status: the image was blurred.
pub const PROCESS_OK: i32 = 0;

/// Status: the parameter text was not accepted.
pub const PROCESS_INVALID_PARAMS: i32 = 1;

/// Status: the buffer or its dimensions were not accepted.
pub const PROCESS_INVALID_INPUT: i32 = 2;

/// Settings of the blur.
#[derive(Clone, Copy, Debug)]
pub struct BlurParams {
    /// How many pixels on either side enter each mean.
    pub radius: usize,
    /// How many horizontal-then-vertical rounds are run.
    pub iterations: usize,
}

impl Default for BlurParams {
    fn default() -> (r: Self)
        ensures
            r.radius == 1,
            r.iterations == 1,
    {
        BlurParams { radius: 1, iterations: 1 }
    }
}

pub open spec fn word_radius() -> Seq<char> {
    seq!['r', 'a', 'd', 'i', 'u', 's']
}

pub open spec fn word_iterations() -> Seq<char> {
    seq!['i', 't', 'e', 'r', 'a', 't', 'i', 'o', 'n', 's']
}

/// What one `key=value` pair does to the settings `(radius, iterations)`:
/// `radius` and `iterations` take a positive number, any other key is an
/// error.
pub open spec fn blur_setting(cfg: (usize, usize), kv: (Seq<char>, Seq<char>)) -> Option<(usize, usize)> {
    if kv.0 == word_radius() {
        match parse_usize_spec(kv.1) {
            Some(v) => if v != 0 {
                Some((v, cfg.1))
            } else {
                None
            },
            None => None,
        }
    } else if kv.0 == word_iterations() {
        match parse_usize_spec(kv.1) {
            Some(v) => if v != 0 {
                Some((cfg.0, v))
            } else {
                None
            },
            None => None,
        }
    } else {
        None
    }
}

/// The settings after the pairs, applied in order to radius 1 and one
/// iteration; `None` once a pair is rejected.
pub open spec fn blur_settings(pairs: Seq<(Seq<char>, Seq<char>)>) -> Option<(usize, usize)>
    decreases pairs.len(),
{
    if pairs.len() == 0 {
        Some((1, 1))
    } else {
        match blur_settings(pairs.drop_last()) {
            Some(cfg) => blur_setting(cfg, pairs.last()),
            None => None,
        }
    }
}

/// The settings that a parameter text gives, or `None` where it is
/// rejected.
pub open spec fn blur_text_settings(text: Seq<char>) -> Option<(usize, usize)> {
    if text_has_malformed_entry(text) {
        None
    } else {
        blur_settings(text_pairs(text))
    }
}

/// The settings that the raw parameter bytes give (no bytes at all read as
/// an empty text), or `None` where they are rejected, malformed UTF-8
/// included.
pub open spec fn blur_params_spec(params: Option<Seq<u8>>) -> Option<(usize, usize)> {
    match params {
        None => blur_text_settings(Seq::empty()),
        Some(b) => if vstd::utf8::valid_utf8(b) {
            blur_text_settings(vstd::utf8::decode_utf8(b))
        } else {
            None
        },
    }
}

/// The key/value pairs of `text`, keys and values trimmed and in lower
/// case; an error where an entry that is not empty has neither `=` nor `:`.
pub fn parse_pairs(text: &str) -> (r: Result<Vec<(String, String)>, ()>)
    ensures
        match r {
            Ok(pairs) => !text_has_malformed_entry(text@) && pairs.deep_view() == text_pairs(
                text@,
            ),
            Err(_) => text_has_malformed_entry(text@),
        },
{
    let (pairs, malformed) = scan_pairs(text);
    if malformed {
        Err(())
    } else {
        Ok(strings_of_pairs(&pairs))
    }
}

fn parse_text(text: &str) -> (r: Result<BlurParams, ()>)
    ensures
        match r {
            Ok(p) => blur_text_settings(text@) == Some((p.radius, p.iterations)),
            Err(_) => blur_text_settings(text@) is None,
        },
{
    let (pairs, malformed) = scan_pairs(text);
    if malformed {
        return Err(());
    }
    let ghost all = pairs.deep_view();
    let radius_word = ['r', 'a', 'd', 'i', 'u', 's'];
    let iterations_word = ['i', 't', 'e', 'r', 'a', 't', 'i', 'o', 'n', 's'];
    proof {
        assert(radius_word@ =~= word_radius());
        assert(iterations_word@ =~= word_iterations());
    }
    let mut out = BlurParams::default();
    let mut k: usize = 0;
    while k < pairs.len()
        invariant
            all == pairs.deep_view(),
            all == text_pairs(text@),
            !text_has_malformed_entry(text@),
            radius_word@ == word_radius(),
            iterations_word@ == word_iterations(),
            k <= pairs.len(),
            blur_settings(all.subrange(0, k as int)) == Some((out.radius, out.iterations)),
        decreases pairs.len() - k,
    {
        let key = &pairs[k].0;
        let value = &pairs[k].1;
        proof {
            assert(all.subrange(0, k + 1).drop_last() =~= all.subrange(0, k as int));
            assert(all[k as int].0 =~= key@);
            assert(all[k as int].1 =~= value@);
        }
        if equals_word(key, radius_word.as_slice()) {
            match parse_usize(value) {
                Some(v) => {
                    if v == 0 {
                        proof {
                            lemma_blur_settings_stuck(all, k as int);
                        }
                        return Err(());
                    }
                    out.radius = v;
                },
                None => {
                    proof {
                        lemma_blur_settings_stuck(all, k as int);
                    }
                    return Err(());
                },
            }
        } else if equals_word(key, iterations_word.as_slice()) {
            match parse_usize(value) {
                Some(v) => {
                    if v == 0 {
                        proof {
                            lemma_blur_settings_stuck(all, k as int);
                        }
                        return Err(());
                    }
                    out.iterations = v;
                },
                None => {
                    proof {
                        lemma_blur_settings_stuck(all, k as int);
                    }
                    return Err(());
                },
            }
        } else {
            proof {
                lemma_blur_settings_stuck(all, k as int);
            }
            return Err(());
        }
        k = k + 1;
    }
    proof {
        assert(all.subrange(0, pairs.len() as int) =~= all);
    }
    Ok(out)
}

/// Once a prefix of the pairs is rejected, so is the whole list.
proof fn lemma_blur_settings_stuck(pairs: Seq<(Seq<char>, Seq<char>)>, k: int)
    requires
        0 <= k < pairs.len(),
        blur_settings(pairs.subrange(0, k + 1)) is None,
    ensures
        blur_settings(pairs) is None,
    decreases pairs.len() - k,
{
    if k + 1 < pairs.len() {
        assert(pairs.subrange(0, k + 2).drop_last() =~= pairs.subrange(0, k + 1));
        lemma_blur_settings_stuck(pairs, k + 1);
    } else {
        assert(pairs.subrange(0, k + 1) =~= pairs);
    }
}

/// Reads the blur settings from the raw parameter bytes (`None` standing
/// for no parameter text at all).
pub fn parse_params(params: Option<&[u8]>) -> (r: Result<BlurParams, ()>)
    ensures
        match r {
            Ok(p) => blur_params_spec(bytes_view(params)) == Some((p.radius, p.iterations)),
            Err(_) => blur_params_spec(bytes_view(params)) is None,
        },
        r matches Ok(p) ==> p.radius >= 1 && p.iterations >= 1,
{
    let r = match params {
        None => {
            proof {
                reveal_strlit("");
            }
            parse_text("")
        },
        Some(bytes) => match utf8_text(bytes) {
            Some(text) => parse_text(text),
            None => Err(()),
        },
    };
    proof {
        if let Ok(p) = r {
            let text = match bytes_view(params) {
                Some(b) => vstd::utf8::decode_utf8(b),
                None => Seq::empty(),
            };
            lemma_blur_settings_positive(text_pairs(text));
        }
    }
    r
}

/// Accepted settings always have a radius and an iteration count of at
/// least one.
pub proof fn lemma_blur_settings_positive(pairs: Seq<(Seq<char>, Seq<char>)>)
    ensures
        blur_settings(pairs) matches Some(cfg) ==> cfg.0 >= 1 && cfg.1 >= 1,
    decreases pairs.len(),
{
    if pairs.len() > 0 {
        lemma_blur_settings_positive(pairs.drop_last());
    }
}


/// The value text of the last pair whose key is `key`, if any.
pub open spec fn last_value_of(pairs: Seq<(Seq<char>, Seq<char>)>, key: Seq<char>) -> Option<
    Seq<char>,
>
    decreases pairs.len(),
{
    if pairs.len() == 0 {
        None
    } else if pairs.last().0 == key {
        Some(pairs.last().1)
    } else {
        last_value_of(pairs.drop_last(), key)
    }
}

/// A pair that the blur plugin accepts: key `radius` or `iterations`, and
/// a value that reads as a positive number.
pub open spec fn is_blur_pair(kv: (Seq<char>, Seq<char>)) -> bool {
    &&& (kv.0 == word_radius() || kv.0 == word_iterations())
    &&& parse_usize_spec(kv.1) matches Some(v) && v > 0
}

/// The number that a setting takes: the value of its last entry, or 1
/// where it has none.
pub open spec fn last_number_or_one(pairs: Seq<(Seq<char>, Seq<char>)>, key: Seq<char>) -> usize {
    match last_value_of(pairs, key) {
        Some(t) => match parse_usize_spec(t) {
            Some(v) => v,
            None => 0,
        },
        None => 1,
    }
}

/// The blur settings accept a list of pairs exactly when every pair is a
/// `radius` or `iterations` entry with a positive number, and then each
/// setting is the value of its own last entry (1 where it has none): an
/// entry for one setting never changes the other, so the order of the
/// `radius` and the `iterations` entries does not matter.
pub proof fn lemma_blur_settings_last_entry_wins(pairs: Seq<(Seq<char>, Seq<char>)>)
    ensures
        blur_settings(pairs) is Some <==> forall|i: int|
            0 <= i < pairs.len() ==> #[trigger] is_blur_pair(pairs[i]),
        blur_settings(pairs) is Some ==> blur_settings(pairs) == Some(
            (
                last_number_or_one(pairs, word_radius()),
                last_number_or_one(pairs, word_iterations()),
            ),
        ),
    decreases pairs.len(),
{
    if pairs.len() > 0 {
        let init = pairs.drop_last();
        let kv = pairs.last();
        lemma_blur_settings_last_entry_wins(init);
        assert(word_radius() != word_iterations()) by {
            assert(word_radius().len() != word_iterations().len());
        }
        if forall|i: int| 0 <= i < pairs.len() ==> #[trigger] is_blur_pair(pairs[i]) {
            assert forall|i: int| 0 <= i < init.len() implies #[trigger] is_blur_pair(init[i]) by {
                assert(init[i] == pairs[i]);
            }
            assert(is_blur_pair(pairs[pairs.len() - 1]));
        }
        if blur_settings(pairs) is Some {
            assert forall|i: int| 0 <= i < pairs.len() implies #[trigger] is_blur_pair(pairs[i]) by {
                if i < init.len() {
                    assert(init[i] == pairs[i]);
                }
            }
        }
    }
}

/// For a parameter text: where the blur plugin accepts it, the radius and
/// the iteration count are each the value of their own last entry (1 where
/// there is none), whatever order the entries come in.
pub proof fn lemma_blur_text_last_entry_wins(text: Seq<char>)
    ensures
        blur_text_settings(text) is Some ==> blur_text_settings(text) == Some(
            (
                last_number_or_one(text_pairs(text), word_radius()),
                last_number_or_one(text_pairs(text), word_iterations()),
            ),
        ),
{
    lemma_blur_settings_last_entry_wins(text_pairs(text));
}

/// The status the blur plugin answers for a `width` by `height` image,
/// given whether it got a buffer and the raw parameter bytes.
pub open spec fn blur_status(width: u32, height: u32, has_data: bool, params: Option<Seq<u8>>) -> i32 {
    let len = rgba_len_spec(width as int, height as int);
    if !has_data {
        PROCESS_INVALID_INPUT
    } else if len > usize::MAX {
        PROCESS_INVALID_INPUT
    } else {
        match blur_params_spec(params) {
            None => PROCESS_INVALID_PARAMS,
            Some(cfg) => if cfg.0 == 0 || cfg.1 == 0 || len == 0 {
                PROCESS_INVALID_INPUT
            } else {
                PROCESS_OK
            },
        }
    }
}

/// Blurs the `width` by `height` RGBA image in `rgba_data` as the
/// parameter bytes say and answers a status (`None` stands for a missing
/// buffer or a missing parameter text). The buffer is changed only where
/// the status is `PROCESS_OK`.
pub fn process_image(
    width: u32,
    height: u32,
    rgba_data: Option<&mut [u8]>,
    params: Option<&[u8]>,
) -> (status: i32)
    requires
        rgba_data matches Some(d) ==> (rgba_len_spec(width as int, height as int) <= usize::MAX
            ==> d@.len() == rgba_len_spec(width as int, height as int)),
    ensures
        status == blur_status(width, height, rgba_data is Some, bytes_view(params)),
        rgba_data matches Some(d) ==> final(d)@ == if status == PROCESS_OK {
            blurred(
                d@,
                width as int,
                height as int,
                blur_params_spec(bytes_view(params)).unwrap().0 as int,
                blur_params_spec(bytes_view(params)).unwrap().1 as nat,
            )
        } else {
            d@
        },
{
    let data = match rgba_data {
        Some(d) => d,
        None => return PROCESS_INVALID_INPUT,
    };
    let len = match rgba_buffer_len(width, height) {
        Some(n) => n,
        None => return PROCESS_INVALID_INPUT,
    };
    let cfg = match parse_params(params) {
        Ok(cfg) => cfg,
        Err(_) => return PROCESS_INVALID_PARAMS,
    };
    if cfg.radius == 0 || cfg.iterations == 0 || len == 0 {
        return PROCESS_INVALID_INPUT;
    }
    let w = width as usize;
    let h = height as usize;
    proof {
        assert(w * 255 <= u64::MAX);
        assert(h * 255 <= u64::MAX);
        assert((w == 0) == (h == 0)) by (nonlinear_arith)
            requires
                len == w * h * 4,
                len != 0,
        ;
    }
    apply_weighted_blur(data, w, h, cfg.radius, cfg.iterations);
    PROCESS_OK
}

} // verus!
