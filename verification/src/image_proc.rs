//! The computing side of image processing: assembling the placeholder data
//! URI from a preview's bytes, validating the requested encode quality, and
//! spanning the width-by-format cross-product of variants to attempt. The
//! pixel work itself (decode, resize, blur, encode) is an external concern;
//! only the base64 encoding of the preview bytes is called from here.

use vstd::prelude::*;

use base64::Engine;

use crate::image_data::ImageFormat;
use crate::text::{extension_of, spec_extension};

verus! {

/// A low-quality placeholder as produced by image processing: a data URI
/// holding the inlined preview, and the source image's original dimensions.
#[derive(Debug)]
pub struct LQIPData {
    pub image: String,
    pub width: u32,
    pub height: u32,
}

/// Why an image-processing step failed: the conversion itself, or the
/// surrounding input/output, with a description.
#[derive(Debug)]
pub enum ImageProcError {
    Conversion,
    IO(String),
}

pub type ImageProcResult<T> = Result<T, ImageProcError>;

impl ImageProcError {
    /// A human-readable description of the failure.
    pub fn describe(&self) -> (r: String)
        ensures
            match self {
                ImageProcError::Conversion => r@ == "There was an error converting the image."@,
                ImageProcError::IO(m) => r@ == "IO error: "@ + m@,
            },
    {
        match self {
            ImageProcError::Conversion => String::from_str(
                "There was an error converting the image.",
            ),
            ImageProcError::IO(m) => {
                let mut s = String::from_str("IO error: ");
                s.append(m.as_str());
                s
            },
        }
    }
}

/// Converts a processing-side placeholder into its manifest record form.
pub fn to_record_lqip(l: LQIPData) -> (r: crate::image_data::LQIPData)
    ensures
        r.image@ == l.image@,
        r.width == l.width,
        r.height == l.height,
{
    crate::image_data::LQIPData { image: l.image, width: l.width, height: l.height }
}

/// What the standard base64 alphabet, with padding, encodes the given bytes
/// to. Named rather than spelled out; the encoder is relied on for it.
pub uninterp spec fn base64_of(bytes: Seq<u8>) -> Seq<char>;

/// Relies on base64's `Engine::encode` with the `STANDARD` engine: the
/// encoding is a function of the input bytes alone, four characters for every
/// started three bytes (padded); it panics only when that output length
/// overflows usize, which the bound on the input length rules out.
#[verifier::external_body]
fn base64_encode(bytes: &Vec<u8>) -> (r: String)
    requires
        bytes@.len() <= ((usize::MAX as int) - 4) / 4 * 3,
    ensures
        r@ == base64_of(bytes@),
        r@.len() == ((bytes@.len() + 2) / 3) * 4,
{
    base64::engine::general_purpose::STANDARD.encode(bytes.as_slice())
}

/// The data-URI form of an inline image: `data:image/{ext};base64,{payload}`.
pub open spec fn spec_data_uri(ext: Seq<char>, payload: Seq<char>) -> Seq<char> {
    "data:image/"@ + ext + ";base64,"@ + payload
}

/// Builds the data URI that inlines an encoded preview.
pub fn data_uri(ext: &str, payload: &str) -> (r: String)
    ensures
        r@ == spec_data_uri(ext@, payload@),
{
    let mut s = String::from_str("data:image/");
    s.append(ext);
    s.append(";base64,");
    s.append(payload);
    proof {
        assert(s@ =~= spec_data_uri(ext@, payload@));
    }
    s
}

/// Assembles the placeholder for one source image from its path, its original
/// dimensions, and the raw bytes of its blurred preview: the preview is
/// base64-encoded into a data URI tagged with the path's extension. Fails
/// exactly when the path has no extension.
pub fn build_lqip(path: &str, width: u32, height: u32, preview: &Vec<u8>) -> (r: Result<
    LQIPData,
    ImageProcError,
>)
    requires
        preview@.len() <= ((usize::MAX as int) - 4) / 4 * 3,
    ensures
        match r {
            Ok(l) => {
                &&& spec_extension(path@) is Some
                &&& l.image@ == spec_data_uri(spec_extension(path@)->Some_0, base64_of(preview@))
                &&& l.width == width
                &&& l.height == height
            },
            Err(e) => {
                &&& spec_extension(path@) is None
                &&& e matches ImageProcError::IO(m) && m@ == "Could not extract file extension"@
            },
        },
{
    match extension_of(path) {
        None => Err(ImageProcError::IO(String::from_str("Could not extract file extension"))),
        Some(ext) => {
            let payload = base64_encode(preview);
            let uri = data_uri(ext.as_str(), payload.as_str());
            Ok(LQIPData { image: uri, width, height })
        },
    }
}

/// Whether the character is a decimal digit.
pub open spec fn is_digit_char(c: char) -> bool {
    48 <= c as int && c as int <= 57
}

/// The value of one decimal digit character.
pub open spec fn digit_val(c: char) -> nat {
    (c as int - 48) as nat
}

/// The numeric value of a sequence of decimal digit characters.
pub open spec fn dec_value(s: Seq<char>) -> nat
    decreases s.len(),
{
    if s.len() == 0 {
        0
    } else {
        dec_value(s.drop_last()) * 10 + digit_val(s.last())
    }
}

/// The digit portion of a numeral: everything after an optional leading '+'.
pub open spec fn numeral_body(s: Seq<char>) -> Seq<char> {
    if s.len() > 0 && s[0] == '+' {
        s.drop_first()
    } else {
        s
    }
}

/// The digits of a u8-style numeral — an optional leading '+', then at least
/// one decimal digit — or None when the text is no such numeral.
pub open spec fn spec_numeral_digits(s: Seq<char>) -> Option<Seq<char>> {
    if numeral_body(s).len() > 0 && (forall|i: int|
        0 <= i < numeral_body(s).len() ==> is_digit_char(#[trigger] numeral_body(s)[i])) {
        Some(numeral_body(s))
    } else {
        None
    }
}

/// Whether the text names an integer between 1 and 100.
pub open spec fn spec_quality_ok(s: Seq<char>) -> bool {
    match spec_numeral_digits(s) {
        Some(d) => 1 <= dec_value(d) <= 100,
        None => false,
    }
}

/// Accepts exactly a numeral whose value lies between 1 and 100; anything
/// else is rejected with a fixed message.
pub fn quality_range(v: &str) -> (r: Result<(), String>)
    ensures
        match r {
            Ok(_) => spec_quality_ok(v@),
            Err(m) => {
                &&& !spec_quality_ok(v@)
                &&& m@ == "quality must be an integer value between 0 and 100"@
            },
        },
{
    let n = v.unicode_len();
    let start: usize = if n > 0 && v.get_char(0) == '+' {
        1
    } else {
        0
    };
    if start >= n {
        return Err(String::from_str("quality must be an integer value between 0 and 100"));
    }
    let ghost body = v@.subrange(start as int, n as int);
    proof {
        if start == 1 {
            assert(body =~= v@.drop_first());
        } else {
            assert(body =~= v@);
        }
    }
    // acc tracks the numeral's value, saturated at 101 so that it stays small.
    let mut acc: u32 = 0;
    let mut i: usize = start;
    proof {
        assert(v@.subrange(start as int, start as int) =~= Seq::<char>::empty());
    }
    while i < n
        invariant
            start <= i <= n,
            n == v@.len(),
            body == v@.subrange(start as int, n as int),
            start as int == if n > 0 && v@[0] == '+' {
                1int
            } else {
                0int
            },
            forall|j: int| start <= j < i ==> is_digit_char(#[trigger] v@[j]),
            acc <= 101,
            acc as int == if dec_value(v@.subrange(start as int, i as int)) > 101 {
                101int
            } else {
                dec_value(v@.subrange(start as int, i as int)) as int
            },
        decreases n - i,
    {
        let c = v.get_char(i);
        let cu = c as u32;
        if cu < 48 || cu > 57 {
            proof {
                assert(!is_digit_char(v@[i as int]));
                let k = i - start;
                assert(v@.subrange(start as int, n as int)[k as int] == v@[i as int]);
                if start == 1 {
                    assert(body =~= v@.drop_first());
                } else {
                    assert(body =~= v@);
                }
                assert(numeral_body(v@) == body);
                assert(!is_digit_char(numeral_body(v@)[k as int]));
                assert(spec_numeral_digits(v@) is None);
            }
            return Err(String::from_str("quality must be an integer value between 0 and 100"));
        }
        let d = cu - 48;
        let raised = acc * 10 + d;
        acc = if raised > 101 {
            101
        } else {
            raised
        };
        proof {
            let pre = v@.subrange(start as int, i as int);
            let cur = v@.subrange(start as int, i + 1 as int);
            assert(cur.drop_last() =~= pre);
            assert(cur.last() == v@[i as int]);
            assert(dec_value(cur) == dec_value(pre) * 10 + digit_val(v@[i as int]));
        }
        i += 1;
    }
    proof {
        if start == 1 {
            assert(body =~= v@.drop_first());
        } else {
            assert(body =~= v@);
        }
        assert(numeral_body(v@) == body);
        assert(body.len() > 0);
        assert forall|t: int| 0 <= t < numeral_body(v@).len() implies is_digit_char(
            #[trigger] numeral_body(v@)[t],
        ) by {
            assert(v@.subrange(start as int, n as int)[t] == v@[start + t]);
            assert(is_digit_char(v@[start + t]));
        }
        assert(spec_numeral_digits(v@) == Some(body));
        assert(dec_value(body) == dec_value(v@.subrange(start as int, n as int)));
    }
    if 1 <= acc && acc <= 100 {
        Ok(())
    } else {
        Err(String::from_str("quality must be an integer value between 0 and 100"))
    }
}

/// The full cross-product of requested widths and formats, widths outermost:
/// element number `i * formats.len() + j` pairs width `i` with format `j`.
pub fn width_format_pairs(widths: &Vec<u32>, formats: &Vec<ImageFormat>) -> (r: Vec<
    (u32, ImageFormat),
>)
    requires
        widths@.len() * formats@.len() <= usize::MAX,
    ensures
        r@.len() == widths@.len() * formats@.len(),
        forall|i: int, j: int|
            0 <= i < widths@.len() && 0 <= j < formats@.len() ==> r@[i * formats@.len() + j] == (
                #[trigger] widths@[i],
                #[trigger] formats@[j],
            ),
{
    let wl = widths.len();
    let fl = formats.len();
    let mut r: Vec<(u32, ImageFormat)> = Vec::new();
    let mut i: usize = 0;
    while i < wl
        invariant
            i <= wl,
            wl == widths@.len(),
            fl == formats@.len(),
            wl * fl <= usize::MAX,
            r@.len() == i * fl,
            forall|x: int, y: int|
                0 <= x < i && 0 <= y < fl ==> r@[x * fl + y] == (
                    #[trigger] widths@[x],
                    #[trigger] formats@[y],
                ),
        decreases wl - i,
    {
        proof {
            assert((i + 1) * fl == i * fl + fl) by (nonlinear_arith);
            assert((i + 1) * fl <= wl * fl) by (nonlinear_arith)
                requires
                    i + 1 <= wl,
                    0 <= fl,
            ;
        }
        let w = widths[i];
        let mut j: usize = 0;
        while j < fl
            invariant
                j <= fl,
                i < wl,
                wl == widths@.len(),
                fl == formats@.len(),
                wl * fl <= usize::MAX,
                (i + 1) * fl <= wl * fl,
                (i + 1) * fl == i * fl + fl,
                w == widths@[i as int],
                r@.len() == i * fl + j,
                forall|x: int, y: int|
                    0 <= x < i && 0 <= y < fl ==> r@[x * fl + y] == (
                        #[trigger] widths@[x],
                        #[trigger] formats@[y],
                    ),
                forall|y: int|
                    0 <= y < j ==> r@[i * fl + y] == (widths@[i as int], #[trigger] formats@[y]),
        decreases fl - j,
        {
            let ghost r0 = r@;
            r.push((w, formats[j]));
            proof {
                assert forall|x: int, y: int| 0 <= x < i && 0 <= y < fl implies r@[x * fl + y] == (
                    widths@[x],
                    formats@[y],
                ) by {
                    assert(x * fl + y < i * fl) by (nonlinear_arith)
                        requires
                            0 <= x < i,
                            0 <= y < fl,
                    ;
                    assert(r@[x * fl + y] == r0[x * fl + y]);
                }
            }
            j += 1;
        }
        i += 1;
    }
    r
}

} // verus!
