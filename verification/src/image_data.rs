//! The manifest of generated image variants: for each base image name an
//! optional low-quality placeholder and, per requested width and format, the
//! name of the generated file. Insertion is purely additive and idempotent:
//! the first writer of a key wins, and inserting what is already present
//! changes nothing.

use vstd::prelude::*;

use crate::assoc::{
    find_index, find_index_u32, find_key, keys_distinct, lemma_find_key_at, lemma_find_key_none,
    lemma_find_key_props, lemma_find_key_push, lemma_find_key_same_keys,
};
use crate::text::{dec_str, decimal_string, escape_seq, json_escaped, push_char};

verus! {

/// A low-quality inline placeholder: a data URI holding a small preview, and
/// the source image's original dimensions.
#[derive(Debug)]
pub struct LQIPData {
    pub image: String,
    pub width: u32,
    pub height: u32,
}

/// The placeholder as mathematics: the URI's characters and the dimensions.
#[verifier::ext_equal]
pub ghost struct LqipView {
    pub image: Seq<char>,
    pub width: u32,
    pub height: u32,
}

impl View for LQIPData {
    type V = LqipView;

    open spec fn view(&self) -> LqipView {
        LqipView { image: self.image@, width: self.width, height: self.height }
    }
}

pub open spec fn lqip_view_opt(lqip: Option<LQIPData>) -> Option<LqipView> {
    match lqip {
        Some(l) => Some(l@),
        None => None,
    }
}

/// One record of the manifest: the optional placeholder, and per width an
/// inner list mapping a format's extension to the generated file name.
#[verifier::ext_equal]
pub ghost struct RecordView {
    pub lqip: Option<LqipView>,
    pub widths: Seq<(u32, Seq<(Seq<char>, Seq<char>)>)>,
}

/// An output format for generated variants.
#[derive(Debug, Copy, Clone, PartialEq, Eq, Structural, Hash, PartialOrd, Ord)]
pub enum ImageFormat {
    JPG,
    PNG,
    GIF,
    WEBP,
}

impl ImageFormat {
    /// The fixed lowercase file-name extension of this format.
    pub open spec fn ext_spec(self) -> Seq<char> {
        match self {
            ImageFormat::JPG => seq!['j', 'p', 'g'],
            ImageFormat::PNG => seq!['p', 'n', 'g'],
            ImageFormat::GIF => seq!['g', 'i', 'f'],
            ImageFormat::WEBP => seq!['w', 'e', 'b', 'p'],
        }
    }

    /// The extension as text.
    pub fn extension(self) -> (r: &'static str)
        ensures
            r@ == self.ext_spec(),
    {
        match self {
            ImageFormat::JPG => {
                proof {
                    reveal_strlit("jpg");
                    assert("jpg"@ =~= self.ext_spec());
                }
                "jpg"
            },
            ImageFormat::PNG => {
                proof {
                    reveal_strlit("png");
                    assert("png"@ =~= self.ext_spec());
                }
                "png"
            },
            ImageFormat::GIF => {
                proof {
                    reveal_strlit("gif");
                    assert("gif"@ =~= self.ext_spec());
                }
                "gif"
            },
            ImageFormat::WEBP => {
                proof {
                    reveal_strlit("webp");
                    assert("webp"@ =~= self.ext_spec());
                }
                "webp"
            },
        }
    }
}

/// Distinct formats never share an extension.
pub proof fn lemma_ext_injective(f1: ImageFormat, f2: ImageFormat)
    requires
        f1.ext_spec() == f2.ext_spec(),
    ensures
        f1 == f2,
{
    if f1 != f2 {
        assert(f1.ext_spec().len() == f2.ext_spec().len());
        assert(f1.ext_spec()[0] == f2.ext_spec()[0]);
        assert(f1.ext_spec()[1] == f2.ext_spec()[1]);
        assert(false);
    }
}

/// One requested or reported generation attempt.
#[derive(Debug)]
pub struct ImageVariant {
    pub base_name: String,
    pub width: u32,
    pub format: ImageFormat,
}

/// The name of the generated file: `{base_name}-{width}w.{extension}`.
pub open spec fn spec_file_name(base: Seq<char>, width: u32, format: ImageFormat) -> Seq<char> {
    base + seq!['-'] + dec_str(width as nat) + seq!['w', '.'] + format.ext_spec()
}

/// Derives the variant file name `{base}-{width}w.{ext}`.
pub fn file_name(base: &str, width: u32, format: ImageFormat) -> (r: String)
    ensures
        r@ == spec_file_name(base@, width, format),
{
    let mut s = base.to_owned();
    push_char(&mut s, '-');
    let digits = crate::text::decimal_string(width);
    s.append(digits.as_str());
    push_char(&mut s, 'w');
    push_char(&mut s, '.');
    s.append(format.extension());
    proof {
        assert(s@ =~= spec_file_name(base@, width, format));
    }
    s
}

#[derive(Debug)]
struct TypeVariantData {
    variant_names: Vec<(String, String)>,
}

impl View for TypeVariantData {
    type V = Seq<(Seq<char>, Seq<char>)>;

    closed spec fn view(&self) -> Self::V {
        self.variant_names@.map_values(|p: (String, String)| (p.0@, p.1@))
    }
}

#[derive(Debug)]
struct SingleImageData {
    lqip: Option<LQIPData>,
    image_widths: Vec<(u32, TypeVariantData)>,
}

impl View for SingleImageData {
    type V = RecordView;

    closed spec fn view(&self) -> RecordView {
        RecordView {
            lqip: match self.lqip {
                Some(l) => Some(l@),
                None => None,
            },
            widths: self.image_widths@.map_values(|p: (u32, TypeVariantData)| (p.0, p.1@)),
        }
    }
}

/// The manifest: an ordered list of records keyed by base image name.
#[derive(Debug)]
pub struct ImageData {
    images: Vec<(String, SingleImageData)>,
}

impl View for ImageData {
    type V = Seq<(Seq<char>, RecordView)>;

    closed spec fn view(&self) -> Self::V {
        self.images@.map_values(|p: (String, SingleImageData)| (p.0@, p.1@))
    }
}

/// Keys are distinct at both inner levels of one record.
pub open spec fn record_wf(r: RecordView) -> bool {
    &&& keys_distinct(r.widths)
    &&& forall|j: int| 0 <= j < r.widths.len() ==> keys_distinct(#[trigger] r.widths[j].1)
}

/// Keys are distinct at every level of the manifest.
pub open spec fn manifest_wf(s: Seq<(Seq<char>, RecordView)>) -> bool {
    &&& keys_distinct(s)
    &&& forall|i: int| 0 <= i < s.len() ==> record_wf(#[trigger] s[i].1)
}

/// What `add_record` does: creates the record if the base name is new, and
/// otherwise leaves the manifest exactly as it was.
pub open spec fn spec_add_record(
    s: Seq<(Seq<char>, RecordView)>,
    base: Seq<char>,
    lqip: Option<LqipView>,
) -> Seq<(Seq<char>, RecordView)> {
    if find_key(s, base) >= 0 {
        s
    } else {
        s.push((base, RecordView { lqip, widths: Seq::empty() }))
    }
}

/// What `add_variant` does: ensures record and width bucket exist, then
/// inserts the derived file name under the format's extension only if that
/// (width, extension) slot is still empty.
pub open spec fn spec_add_variant(
    s: Seq<(Seq<char>, RecordView)>,
    base: Seq<char>,
    width: u32,
    format: ImageFormat,
) -> Seq<(Seq<char>, RecordView)> {
    let fname = spec_file_name(base, width, format);
    let ext = format.ext_spec();
    let i = find_key(s, base);
    if i < 0 {
        s.push((base, RecordView { lqip: None, widths: seq![(width, seq![(ext, fname)])] }))
    } else {
        let r = s[i].1;
        let j = find_key(r.widths, width);
        if j < 0 {
            s.update(
                i,
                (base, RecordView { lqip: r.lqip, widths: r.widths.push((width, seq![(ext, fname)])) }),
            )
        } else {
            let tv = r.widths[j].1;
            if find_key(tv, ext) < 0 {
                s.update(
                    i,
                    (
                        base,
                        RecordView {
                            lqip: r.lqip,
                            widths: r.widths.update(j, (width, tv.push((ext, fname)))),
                        },
                    ),
                )
            } else {
                s
            }
        }
    }
}

/// The file name stored for (base, width, extension), if any.
pub open spec fn spec_lookup(
    s: Seq<(Seq<char>, RecordView)>,
    base: Seq<char>,
    width: u32,
    ext: Seq<char>,
) -> Option<Seq<char>> {
    let i = find_key(s, base);
    if i < 0 {
        None
    } else {
        let j = find_key(s[i].1.widths, width);
        if j < 0 {
            None
        } else {
            let k = find_key(s[i].1.widths[j].1, ext);
            if k < 0 {
                None
            } else {
                Some(s[i].1.widths[j].1[k].1)
            }
        }
    }
}

/// The stored placeholder of a base name, if the record exists.
pub open spec fn spec_lqip(
    s: Seq<(Seq<char>, RecordView)>,
    base: Seq<char>,
) -> Option<Option<LqipView>> {
    let i = find_key(s, base);
    if i < 0 {
        None
    } else {
        Some(s[i].1.lqip)
    }
}

impl ImageData {
    pub open spec fn wf(&self) -> bool {
        manifest_wf(self@)
    }

    /// An empty manifest.
    pub fn new() -> (r: ImageData)
        ensures
            r@ == Seq::<(Seq<char>, RecordView)>::empty(),
            r.wf(),
    {
        let r = ImageData { images: Vec::new() };
        proof {
            assert(r@ =~= Seq::<(Seq<char>, RecordView)>::empty());
        }
        r
    }

    /// Ensures a record exists for `base_name`; if one is already there, it is
    /// left entirely unchanged — in particular its placeholder is never
    /// overwritten.
    pub fn add_record(&mut self, base_name: String, lqip: Option<LQIPData>)
        requires
            old(self).wf(),
        ensures
            final(self)@ == spec_add_record(old(self)@, base_name@, lqip_view_opt(lqip)),
            final(self).wf(),
    {
        let ghost s0 = self@;
        let ghost b = base_name@;
        match find_index(&self.images, &base_name) {
            Some(i) => {
                proof {
                    assert(s0[i as int].0 == b);
                    lemma_find_key_at(s0, b, i as int);
                }
            },
            None => {
                proof {
                    assert(forall|j: int| 0 <= j < s0.len() ==> s0[j].0 != b);
                    lemma_find_key_none(s0, b);
                }
                let ghost lv = lqip_view_opt(lqip);
                self.images.push((base_name, SingleImageData { lqip, image_widths: Vec::new() }));
                proof {
                    let e = (b, RecordView { lqip: lv, widths: Seq::empty() });
                    assert(self@ =~~= s0.push(e));
                    assert forall|x: int, y: int| 0 <= x < y < self@.len() implies self@[x].0
                        != self@[y].0 by {
                        if y < s0.len() {
                        } else {
                            assert(self@[x].0 != b);
                        }
                    }
                    assert(manifest_wf(self@));
                }
            },
        }
    }

    /// Ensures record and width bucket exist for the descriptor, then inserts
    /// the derived file name under the format's extension if that slot is
    /// still empty. Purely additive; never fails.
    pub fn add_variant(&mut self, image_record: &ImageVariant)
        requires
            old(self).wf(),
        ensures
            final(self)@ == spec_add_variant(
                old(self)@,
                image_record.base_name@,
                image_record.width,
                image_record.format,
            ),
            final(self).wf(),
    {
        let ghost s0 = self@;
        let ghost b = image_record.base_name@;
        let width = image_record.width;
        let format = image_record.format;
        let fname = file_name(image_record.base_name.as_str(), width, format);
        let ext = String::from_str(format.extension());
        match find_index(&self.images, &image_record.base_name) {
            None => {
                proof {
                    lemma_find_key_none(s0, b);
                }
                let mut names: Vec<(String, String)> = Vec::new();
                names.push((ext, fname));
                let tv = TypeVariantData { variant_names: names };
                let mut widths_vec: Vec<(u32, TypeVariantData)> = Vec::new();
                widths_vec.push((width, tv));
                let record = SingleImageData { lqip: None, image_widths: widths_vec };
                self.images.push((image_record.base_name.clone(), record));
                proof {
                    let e = (
                        b,
                        RecordView {
                            lqip: None,
                            widths: seq![
                                (width, seq![(format.ext_spec(), spec_file_name(b, width, format))]),
                            ],
                        },
                    );
                    assert(self@ =~~= s0.push(e));
                    assert(self@ == spec_add_variant(s0, b, width, format));
                    lemma_spec_add_variant_wf(s0, b, width, format);
                }
            },
            Some(i) => {
                proof {
                    assert(s0[i as int].0 == b);
                    lemma_find_key_at(s0, b, i as int);
                }
                let (ekey, mut edata) = self.images.remove(i);
                let ghost r0 = edata@;
                proof {
                    assert(r0 == s0[i as int].1);
                }
                match find_index_u32(&edata.image_widths, width) {
                    None => {
                        proof {
                            assert(forall|j: int|
                                0 <= j < r0.widths.len() ==> r0.widths[j].0 != width);
                            lemma_find_key_none(r0.widths, width);
                        }
                        let mut names: Vec<(String, String)> = Vec::new();
                        names.push((ext, fname));
                        edata.image_widths.push((width, TypeVariantData { variant_names: names }));
                        proof {
                            assert(edata@.widths =~~= r0.widths.push(
                                (width, seq![(format.ext_spec(), spec_file_name(b, width, format))]),
                            ));
                            assert(edata@.lqip == r0.lqip);
                        }
                    },
                    Some(j) => {
                        proof {
                            assert(r0.widths[j as int].0 == width);
                            lemma_find_key_at(r0.widths, width, j as int);
                        }
                        let (wkey, mut wdata) = edata.image_widths.remove(j);
                        let ghost tv0 = wdata@;
                        proof {
                            assert(tv0 == r0.widths[j as int].1);
                        }
                        match find_index(&wdata.variant_names, &ext) {
                            None => {
                                proof {
                                    lemma_find_key_none(tv0, format.ext_spec());
                                }
                                wdata.variant_names.push((ext, fname));
                                proof {
                                    assert(wdata@ =~~= tv0.push(
                                        (format.ext_spec(), spec_file_name(b, width, format)),
                                    ));
                                }
                            },
                            Some(_k) => {
                                proof {
                                    assert(tv0[_k as int].0 == format.ext_spec());
                                    lemma_find_key_at(tv0, format.ext_spec(), _k as int);
                                }
                            },
                        }
                        edata.image_widths.insert(j, (wkey, wdata));
                        proof {
                            let k = find_key(tv0, format.ext_spec());
                            if k < 0 {
                                assert(edata@.widths =~~= r0.widths.update(
                                    j as int,
                                    (
                                        width,
                                        tv0.push(
                                            (format.ext_spec(), spec_file_name(b, width, format)),
                                        ),
                                    ),
                                ));
                            } else {
                                assert(edata@.widths =~~= r0.widths);
                            }
                            assert(edata@.lqip == r0.lqip);
                        }
                    },
                }
                self.images.insert(i, (ekey, edata));
                proof {
                    assert(self@ =~~= s0.update(i as int, (b, edata@)));
                    assert(self@ =~~= spec_add_variant(s0, b, width, format));
                    assert(self@ == spec_add_variant(s0, b, width, format));
                    lemma_spec_add_variant_wf(s0, b, width, format);
                }
            },
        }
    }
}

/// JSON text of one placeholder object.
pub open spec fn json_lqip(l: LqipView) -> Seq<char> {
    "{\"image\":\""@ + escape_seq(l.image) + "\",\"width\":"@ + dec_str(l.width as nat)
        + ",\"height\":"@ + dec_str(l.height as nat) + "}"@
}

/// JSON text of the placeholder field, `null` when absent.
pub open spec fn json_lqip_field(o: Option<LqipView>) -> Seq<char> {
    "\"lqip\":"@ + match o {
        None => "null"@,
        Some(l) => json_lqip(l),
    }
}

/// JSON text of one extension/file-name member.
pub open spec fn json_variant(p: (Seq<char>, Seq<char>)) -> Seq<char> {
    "\""@ + escape_seq(p.0) + "\":\""@ + escape_seq(p.1) + "\""@
}

/// JSON text of the members of one width bucket, comma separated.
pub open spec fn json_variants(tv: Seq<(Seq<char>, Seq<char>)>) -> Seq<char>
    decreases tv.len(),
{
    if tv.len() == 0 {
        Seq::empty()
    } else if tv.len() == 1 {
        json_variant(tv[0])
    } else {
        json_variants(tv.drop_last()) + ","@ + json_variant(tv.last())
    }
}

/// JSON text of one width member: the width as a string key, the bucket as an
/// object.
pub open spec fn json_width_entry(e: (u32, Seq<(Seq<char>, Seq<char>)>)) -> Seq<char> {
    "\""@ + dec_str(e.0 as nat) + "\":{"@ + json_variants(e.1) + "}"@
}

/// JSON text of all width members; each is preceded by a comma, since the
/// placeholder field always comes first in a record.
pub open spec fn json_widths(ws: Seq<(u32, Seq<(Seq<char>, Seq<char>)>)>) -> Seq<char>
    decreases ws.len(),
{
    if ws.len() == 0 {
        Seq::empty()
    } else {
        json_widths(ws.drop_last()) + ","@ + json_width_entry(ws.last())
    }
}

/// JSON text of one record object.
pub open spec fn json_record(r: RecordView) -> Seq<char> {
    "{"@ + json_lqip_field(r.lqip) + json_widths(r.widths) + "}"@
}

/// JSON text of one top-level member: the base name and its record.
pub open spec fn json_entry(e: (Seq<char>, RecordView)) -> Seq<char> {
    "\""@ + escape_seq(e.0) + "\":"@ + json_record(e.1)
}

/// JSON text of all top-level members, comma separated.
pub open spec fn json_entries(s: Seq<(Seq<char>, RecordView)>) -> Seq<char>
    decreases s.len(),
{
    if s.len() == 0 {
        Seq::empty()
    } else if s.len() == 1 {
        json_entry(s[0])
    } else {
        json_entries(s.drop_last()) + ","@ + json_entry(s.last())
    }
}

/// The manifest's whole serialized form: one JSON object keyed by base name,
/// members in insertion order.
pub open spec fn spec_serialize(s: Seq<(Seq<char>, RecordView)>) -> Seq<char> {
    "{"@ + json_entries(s) + "}"@
}

proof fn lemma_json_variants_step(tv: Seq<(Seq<char>, Seq<char>)>, m: int)
    requires
        0 <= m < tv.len(),
    ensures
        json_variants(tv.subrange(0, m + 1)) == if m == 0 {
            json_variant(tv[0])
        } else {
            json_variants(tv.subrange(0, m)) + ","@ + json_variant(tv[m])
        },
{
    assert(tv.subrange(0, m + 1).drop_last() =~= tv.subrange(0, m));
    assert(tv.subrange(0, m + 1).last() == tv[m]);
    assert(tv.subrange(0, m + 1)[0] == tv[0]);
}

proof fn lemma_json_widths_step(ws: Seq<(u32, Seq<(Seq<char>, Seq<char>)>)>, m: int)
    requires
        0 <= m < ws.len(),
    ensures
        json_widths(ws.subrange(0, m + 1)) == json_widths(ws.subrange(0, m)) + ","@
            + json_width_entry(ws[m]),
{
    assert(ws.subrange(0, m + 1).drop_last() =~= ws.subrange(0, m));
    assert(ws.subrange(0, m + 1).last() == ws[m]);
}

proof fn lemma_json_entries_step(s: Seq<(Seq<char>, RecordView)>, m: int)
    requires
        0 <= m < s.len(),
    ensures
        json_entries(s.subrange(0, m + 1)) == if m == 0 {
            json_entry(s[0])
        } else {
            json_entries(s.subrange(0, m)) + ","@ + json_entry(s[m])
        },
{
    assert(s.subrange(0, m + 1).drop_last() =~= s.subrange(0, m));
    assert(s.subrange(0, m + 1).last() == s[m]);
    assert(s.subrange(0, m + 1)[0] == s[0]);
}

/// Appends the JSON of one placeholder object.
fn write_lqip(out: &mut String, l: &LQIPData)
    ensures
        final(out)@ == old(out)@ + json_lqip(l@),
{
    let ghost pre = out@;
    out.append("{\"image\":\"");
    let esc = json_escaped(l.image.as_str());
    out.append(esc.as_str());
    out.append("\",\"width\":");
    let w = decimal_string(l.width);
    out.append(w.as_str());
    out.append(",\"height\":");
    let h = decimal_string(l.height);
    out.append(h.as_str());
    out.append("}");
    proof {
        assert(out@ =~= pre + json_lqip(l@));
    }
}

/// Appends the JSON of one record object.
fn write_record(out: &mut String, r: &SingleImageData)
    ensures
        final(out)@ == old(out)@ + json_record(r@),
{
    let ghost pre = out@;
    out.append("{");
    out.append("\"lqip\":");
    match &r.lqip {
        None => {
            out.append("null");
        },
        Some(l) => {
            write_lqip(out, l);
        },
    }
    proof {
        assert(out@ =~= pre + "{"@ + json_lqip_field(r@.lqip));
    }
    let ghost mid = out@;
    let ghost ws = r@.widths;
    let n = r.image_widths.len();
    let mut m: usize = 0;
    while m < n
        invariant
            m <= n,
            n == r.image_widths@.len(),
            ws == r@.widths,
            ws.len() == n,
            out@ == mid + json_widths(ws.subrange(0, m as int)),
            forall|q: int| 0 <= q < n ==> ws[q] == (
                #[trigger] r.image_widths@[q].0,
                r.image_widths@[q].1@,
            ),
        decreases n - m,
    {
        let ghost pre_m = out@;
        out.append(",");
        out.append("\"");
        let wstr = decimal_string(r.image_widths[m].0);
        out.append(wstr.as_str());
        out.append("\":{");
        let ghost mid_tv = out@;
        let ghost tv = ws[m as int].1;
        let inner = &r.image_widths[m].1;
        proof {
            assert(inner@ == tv);
        }
        let tn = inner.variant_names.len();
        let mut t: usize = 0;
        while t < tn
            invariant
                t <= tn,
                tn == inner.variant_names@.len(),
                tv == inner@,
                tv.len() == tn,
                out@ == mid_tv + json_variants(tv.subrange(0, t as int)),
                forall|q: int| 0 <= q < tn ==> tv[q] == (
                    #[trigger] inner.variant_names@[q].0@,
                    inner.variant_names@[q].1@,
                ),
            decreases tn - t,
        {
            let ghost pre_t = out@;
            if t > 0 {
                out.append(",");
            }
            out.append("\"");
            let ek = json_escaped(inner.variant_names[t].0.as_str());
            out.append(ek.as_str());
            out.append("\":\"");
            let ev = json_escaped(inner.variant_names[t].1.as_str());
            out.append(ev.as_str());
            out.append("\"");
            proof {
                lemma_json_variants_step(tv, t as int);
                assert(out@ =~= mid_tv + json_variants(tv.subrange(0, t + 1 as int)));
            }
            t += 1;
        }
        out.append("}");
        proof {
            assert(tv.subrange(0, tn as int) =~= tv);
            lemma_json_widths_step(ws, m as int);
            assert(out@ =~= mid + json_widths(ws.subrange(0, m + 1 as int)));
        }
        m += 1;
    }
    out.append("}");
    proof {
        assert(ws.subrange(0, n as int) =~= ws);
        assert(out@ =~= pre + json_record(r@));
    }
}

impl ImageData {
    /// Serializes the whole manifest as one JSON document: an object keyed by
    /// base name; each record holds the `lqip` field (object or null) and, per
    /// width, an object mapping format extensions to generated file names.
    pub fn serialize(&self) -> (r: String)
        ensures
            r@ == spec_serialize(self@),
    {
        let ghost s = self@;
        let mut out = String::new();
        out.append("{");
        let ghost head = out@;
        let n = self.images.len();
        let mut m: usize = 0;
        while m < n
            invariant
                m <= n,
                n == self.images@.len(),
                s == self@,
                s.len() == n,
                out@ == head + json_entries(s.subrange(0, m as int)),
                forall|q: int| 0 <= q < n ==> s[q] == (
                    #[trigger] self.images@[q].0@,
                    self.images@[q].1@,
                ),
            decreases n - m,
        {
            let ghost pre_m = out@;
            if m > 0 {
                out.append(",");
            }
            out.append("\"");
            let ek = json_escaped(self.images[m].0.as_str());
            out.append(ek.as_str());
            out.append("\":");
            write_record(&mut out, &self.images[m].1);
            proof {
                lemma_json_entries_step(s, m as int);
                assert(out@ =~= head + json_entries(s.subrange(0, m + 1 as int)));
            }
            m += 1;
        }
        out.append("}");
        proof {
            assert(s.subrange(0, n as int) =~= s);
            assert(out@ =~= spec_serialize(s));
        }
        out
    }
}

/// The result of adding a whole sequence of descriptors, first to last.
pub open spec fn spec_add_variants(
    s: Seq<(Seq<char>, RecordView)>,
    ds: Seq<(Seq<char>, u32, ImageFormat)>,
) -> Seq<(Seq<char>, RecordView)>
    decreases ds.len(),
{
    if ds.len() == 0 {
        s
    } else {
        spec_add_variant(
            spec_add_variants(s, ds.drop_last()),
            ds.last().0,
            ds.last().1,
            ds.last().2,
        )
    }
}

impl ImageData {
    /// True when a record exists for the base name.
    pub fn contains_record(&self, base_name: &String) -> (r: bool)
        ensures
            r == (find_key(self@, base_name@) >= 0),
    {
        match find_index(&self.images, base_name) {
            Some(i) => {
                proof {
                    lemma_find_key_at(self@, base_name@, i as int);
                }
                true
            },
            None => {
                proof {
                    lemma_find_key_none(self@, base_name@);
                }
                false
            },
        }
    }

    /// The stored placeholder of a base name; None when the record is missing
    /// or holds no placeholder.
    pub fn get_lqip(&self, base_name: &String) -> (r: Option<&LQIPData>)
        ensures
            match r {
                Some(l) => spec_lqip(self@, base_name@) == Some(Some(l@)),
                None => spec_lqip(self@, base_name@) is None || spec_lqip(self@, base_name@)
                    == Some(None::<LqipView>),
            },
    {
        match find_index(&self.images, base_name) {
            None => {
                proof {
                    lemma_find_key_none(self@, base_name@);
                }
                None
            },
            Some(i) => {
                proof {
                    lemma_find_key_at(self@, base_name@, i as int);
                }
                match &self.images[i].1.lqip {
                    Some(l) => Some(l),
                    None => None,
                }
            },
        }
    }

    /// The file name stored for (base name, width, format extension), if any.
    pub fn get_file_name(&self, base_name: &String, width: u32, extension: &String) -> (r: Option<
        &String,
    >)
        ensures
            match r {
                Some(f) => spec_lookup(self@, base_name@, width, extension@) == Some(f@),
                None => spec_lookup(self@, base_name@, width, extension@) is None,
            },
    {
        match find_index(&self.images, base_name) {
            None => {
                proof {
                    lemma_find_key_none(self@, base_name@);
                }
                None
            },
            Some(i) => {
                proof {
                    lemma_find_key_at(self@, base_name@, i as int);
                }
                let record = &self.images[i].1;
                let ghost r0 = self@[i as int].1;
                proof {
                    assert(record@ == r0);
                }
                match find_index_u32(&record.image_widths, width) {
                    None => {
                        proof {
                            lemma_find_key_none(r0.widths, width);
                        }
                        None
                    },
                    Some(j) => {
                        proof {
                            assert(r0.widths[j as int].0 == width);
                            lemma_find_key_at(r0.widths, width, j as int);
                        }
                        let inner = &record.image_widths[j].1;
                        let ghost tv0 = r0.widths[j as int].1;
                        proof {
                            assert(inner@ == tv0);
                        }
                        match find_index(&inner.variant_names, extension) {
                            None => {
                                proof {
                                    lemma_find_key_none(tv0, extension@);
                                }
                                None
                            },
                            Some(k) => {
                                proof {
                                    assert(tv0[k as int].0 == extension@);
                                    lemma_find_key_at(tv0, extension@, k as int);
                                }
                                Some(&inner.variant_names[k].1)
                            },
                        }
                    },
                }
            },
        }
    }

    /// Registers one processed image: ensures its record exists, with the
    /// given placeholder if the record is new, then adds every reported
    /// variant descriptor in order.
    pub fn record_results(
        &mut self,
        base_name: String,
        lqip: Option<LQIPData>,
        variants: &Vec<ImageVariant>,
    )
        requires
            old(self).wf(),
        ensures
            final(self)@ == spec_add_variants(
                spec_add_record(old(self)@, base_name@, lqip_view_opt(lqip)),
                variants@.map_values(|v: ImageVariant| (v.base_name@, v.width, v.format)),
            ),
            final(self).wf(),
    {
        let ghost ds = variants@.map_values(|v: ImageVariant| (v.base_name@, v.width, v.format));
        self.add_record(base_name, lqip);
        let ghost s1 = self@;
        let n = variants.len();
        let mut i: usize = 0;
        proof {
            assert(s1.subrange(0, 0) =~= Seq::<(Seq<char>, RecordView)>::empty());
            assert(ds.subrange(0, 0) =~= Seq::<(Seq<char>, u32, ImageFormat)>::empty());
        }
        while i < n
            invariant
                i <= n,
                n == variants@.len(),
                ds == variants@.map_values(|v: ImageVariant| (v.base_name@, v.width, v.format)),
                ds.len() == n,
                self@ == spec_add_variants(s1, ds.subrange(0, i as int)),
                self.wf(),
            decreases n - i,
        {
            self.add_variant(&variants[i]);
            proof {
                assert(ds.subrange(0, i + 1 as int).drop_last() =~= ds.subrange(0, i as int));
                assert(ds.subrange(0, i + 1 as int).last() == ds[i as int]);
                assert(self@ == spec_add_variants(s1, ds.subrange(0, i + 1 as int)));
            }
            i += 1;
        }
        proof {
            assert(ds.subrange(0, n as int) =~= ds);
        }
    }
}

/// Law: adding the same descriptor twice leaves the manifest exactly as after
/// the first time — in particular its serialized form is unchanged.
pub proof fn lemma_add_variant_idempotent(
    s: Seq<(Seq<char>, RecordView)>,
    base: Seq<char>,
    width: u32,
    format: ImageFormat,
)
    ensures
        spec_add_variant(spec_add_variant(s, base, width, format), base, width, format)
            == spec_add_variant(s, base, width, format),
        spec_serialize(spec_add_variant(spec_add_variant(s, base, width, format), base, width, format))
            == spec_serialize(spec_add_variant(s, base, width, format)),
{
    let ext = format.ext_spec();
    let fname = spec_file_name(base, width, format);
    let s1 = spec_add_variant(s, base, width, format);
    lemma_find_key_props(s, base);
    let i = find_key(s, base);
    if i < 0 {
        let e = (base, RecordView { lqip: None, widths: seq![(width, seq![(ext, fname)])] });
        lemma_find_key_push(s, base, e);
        assert(find_key(s1, base) == s.len());
        assert(s1[s.len() as int] == e);
        assert(find_key(e.1.widths, width) == 0);
        assert(find_key(e.1.widths[0].1, ext) == 0);
    } else {
        let r = s[i].1;
        lemma_find_key_props(r.widths, width);
        let j = find_key(r.widths, width);
        if j < 0 {
            let tvnew = seq![(ext, fname)];
            let r2 = RecordView { lqip: r.lqip, widths: r.widths.push((width, tvnew)) };
            assert(s1 == s.update(i, (base, r2)));
            lemma_find_key_same_keys(s1, s, base);
            assert(find_key(s1, base) == i);
            assert(s1[i].1 == r2);
            lemma_find_key_push(r.widths, width, (width, tvnew));
            assert(find_key(r2.widths, width) == r.widths.len());
            assert(r2.widths[r.widths.len() as int].1 == tvnew);
            assert(find_key(tvnew, ext) == 0);
        } else {
            let tv = r.widths[j].1;
            lemma_find_key_props(tv, ext);
            let k = find_key(tv, ext);
            if k < 0 {
                let tv2 = tv.push((ext, fname));
                let r2 = RecordView { lqip: r.lqip, widths: r.widths.update(j, (width, tv2)) };
                assert(s1 == s.update(i, (base, r2)));
                lemma_find_key_same_keys(s1, s, base);
                assert(find_key(s1, base) == i);
                assert(s1[i].1 == r2);
                lemma_find_key_same_keys(r2.widths, r.widths, width);
                assert(find_key(r2.widths, width) == j);
                assert(r2.widths[j].1 == tv2);
                lemma_find_key_push(tv, ext, (ext, fname));
                assert(find_key(tv2, ext) == tv.len());
            } else {
                assert(s1 == s);
            }
        }
    }
}

/// Law: after adding a descriptor, exactly one file name is stored under its
/// (base name, width, extension) triple: the one already there if the slot was
/// taken (first writer wins), and the derived name otherwise.
pub proof fn lemma_add_variant_found(
    s: Seq<(Seq<char>, RecordView)>,
    base: Seq<char>,
    width: u32,
    format: ImageFormat,
)
    ensures
        spec_lookup(spec_add_variant(s, base, width, format), base, width, format.ext_spec())
            == match spec_lookup(s, base, width, format.ext_spec()) {
            Some(existing) => Some(existing),
            None => Some(spec_file_name(base, width, format)),
        },
{
    let ext = format.ext_spec();
    let fname = spec_file_name(base, width, format);
    let s1 = spec_add_variant(s, base, width, format);
    lemma_find_key_props(s, base);
    let i = find_key(s, base);
    if i < 0 {
        let e = (base, RecordView { lqip: None, widths: seq![(width, seq![(ext, fname)])] });
        lemma_find_key_push(s, base, e);
        assert(find_key(s1, base) == s.len());
        assert(s1[s.len() as int] == e);
        assert(find_key(e.1.widths, width) == 0);
        assert(find_key(e.1.widths[0].1, ext) == 0);
        assert(e.1.widths[0].1[0].1 == fname);
    } else {
        let r = s[i].1;
        lemma_find_key_props(r.widths, width);
        let j = find_key(r.widths, width);
        if j < 0 {
            let tvnew = seq![(ext, fname)];
            let r2 = RecordView { lqip: r.lqip, widths: r.widths.push((width, tvnew)) };
            assert(s1 == s.update(i, (base, r2)));
            lemma_find_key_same_keys(s1, s, base);
            assert(s1[i].1 == r2);
            lemma_find_key_push(r.widths, width, (width, tvnew));
            assert(find_key(r2.widths, width) == r.widths.len());
            assert(r2.widths[r.widths.len() as int].1 == tvnew);
            assert(find_key(tvnew, ext) == 0);
        } else {
            let tv = r.widths[j].1;
            lemma_find_key_props(tv, ext);
            let k = find_key(tv, ext);
            if k < 0 {
                let tv2 = tv.push((ext, fname));
                let r2 = RecordView { lqip: r.lqip, widths: r.widths.update(j, (width, tv2)) };
                assert(s1 == s.update(i, (base, r2)));
                lemma_find_key_same_keys(s1, s, base);
                assert(s1[i].1 == r2);
                lemma_find_key_same_keys(r2.widths, r.widths, width);
                assert(find_key(r2.widths, width) == j);
                assert(r2.widths[j].1 == tv2);
                lemma_find_key_push(tv, ext, (ext, fname));
                assert(find_key(tv2, ext) == tv.len());
                assert(tv2[tv.len() as int].1 == fname);
            } else {
                assert(s1 == s);
            }
        }
    }
}

/// Law (frame): adding a descriptor stores nothing under any other
/// (base name, width, extension) triple.
pub proof fn lemma_add_variant_frame(
    s: Seq<(Seq<char>, RecordView)>,
    base: Seq<char>,
    width: u32,
    format: ImageFormat,
    qb: Seq<char>,
    qw: u32,
    qe: Seq<char>,
)
    requires
        !(qb == base && qw == width && qe == format.ext_spec()),
    ensures
        spec_lookup(spec_add_variant(s, base, width, format), qb, qw, qe) == spec_lookup(
            s,
            qb,
            qw,
            qe,
        ),
{
    let ext = format.ext_spec();
    let fname = spec_file_name(base, width, format);
    let s1 = spec_add_variant(s, base, width, format);
    lemma_find_key_props(s, base);
    lemma_find_key_props(s, qb);
    let i = find_key(s, base);
    if i < 0 {
        let e = (base, RecordView { lqip: None, widths: seq![(width, seq![(ext, fname)])] });
        lemma_find_key_push(s, qb, e);
        if qb == base {
            assert(find_key(s, qb) == -1);
            assert(find_key(s1, qb) == s.len());
            assert(s1[s.len() as int] == e);
            if qw != width {
                assert(e.1.widths[0].0 == width);
                lemma_find_key_props(e.1.widths, qw);
                if find_key(e.1.widths, qw) >= 0 {
                    assert(false);
                }
            } else {
                assert(find_key(e.1.widths, qw) == 0);
                assert(e.1.widths[0].1[0].0 == ext);
                lemma_find_key_props(e.1.widths[0].1, qe);
                if find_key(e.1.widths[0].1, qe) >= 0 {
                    assert(false);
                }
            }
        } else {
            if find_key(s, qb) >= 0 {
                assert(s1[find_key(s, qb)] == s[find_key(s, qb)]);
            }
        }
    } else {
        let r = s[i].1;
        lemma_find_key_props(r.widths, width);
        let j = find_key(r.widths, width);
        let rnew = spec_add_variant(s, base, width, format)[i].1;
        if j >= 0 && find_key(r.widths[j].1, format.ext_spec()) >= 0 {
            assert(s1 == s);
        } else {
            lemma_find_key_same_keys(s1, s, qb);
            if qb != base {
                if find_key(s, qb) >= 0 {
                    assert(find_key(s, qb) != i);
                    assert(s1[find_key(s, qb)] == s[find_key(s, qb)]);
                }
            } else {
                assert(find_key(s1, qb) == i);
                let r2 = s1[i].1;
                if j < 0 {
                    let tvnew = seq![(ext, fname)];
                    assert(r2 == RecordView { lqip: r.lqip, widths: r.widths.push((width, tvnew)) });
                    lemma_find_key_push(r.widths, qw, (width, tvnew));
                    lemma_find_key_props(r.widths, qw);
                    if qw != width {
                        if find_key(r.widths, qw) >= 0 {
                            assert(r2.widths[find_key(r.widths, qw)] == r.widths[find_key(
                                r.widths,
                                qw,
                            )]);
                        }
                    } else {
                        assert(find_key(r.widths, qw) == j < 0);
                        assert(find_key(r2.widths, qw) == r.widths.len());
                        assert(r2.widths[r.widths.len() as int].1 == tvnew);
                        assert(tvnew[0].0 == ext);
                        lemma_find_key_props(tvnew, qe);
                        if find_key(tvnew, qe) >= 0 {
                            assert(false);
                        }
                    }
                } else {
                    let tv = r.widths[j].1;
                    lemma_find_key_props(tv, ext);
                    let k = find_key(tv, ext);
                    assert(k < 0);
                    let tv2 = tv.push((ext, fname));
                    assert(r2 == RecordView {
                        lqip: r.lqip,
                        widths: r.widths.update(j, (width, tv2)),
                    });
                    lemma_find_key_same_keys(r2.widths, r.widths, qw);
                    lemma_find_key_props(r.widths, qw);
                    if qw != width {
                        if find_key(r.widths, qw) >= 0 {
                            assert(find_key(r.widths, qw) != j);
                            assert(r2.widths[find_key(r.widths, qw)] == r.widths[find_key(
                                r.widths,
                                qw,
                            )]);
                        }
                    } else {
                        assert(find_key(r2.widths, qw) == j);
                        assert(r2.widths[j].1 == tv2);
                        lemma_find_key_push(tv, qe, (ext, fname));
                        lemma_find_key_props(tv, qe);
                        if find_key(tv, qe) >= 0 {
                            assert(tv2[find_key(tv, qe)] == tv[find_key(tv, qe)]);
                        }
                    }
                }
            }
        }
    }
}

/// Law: two descriptors with distinct (base name, width, extension) triples
/// may be added in either order; every lookup gives the same answer.
pub proof fn lemma_add_variant_order_independent(
    s: Seq<(Seq<char>, RecordView)>,
    b1: Seq<char>,
    w1: u32,
    f1: ImageFormat,
    b2: Seq<char>,
    w2: u32,
    f2: ImageFormat,
    qb: Seq<char>,
    qw: u32,
    qe: Seq<char>,
)
    requires
        !(b1 == b2 && w1 == w2 && f1 == f2),
    ensures
        spec_lookup(spec_add_variant(spec_add_variant(s, b1, w1, f1), b2, w2, f2), qb, qw, qe)
            == spec_lookup(spec_add_variant(spec_add_variant(s, b2, w2, f2), b1, w1, f1), qb, qw, qe),
{
    if b1 == b2 && w1 == w2 && f1.ext_spec() == f2.ext_spec() {
        lemma_ext_injective(f1, f2);
    }
    let s12 = spec_add_variant(spec_add_variant(s, b1, w1, f1), b2, w2, f2);
    let s21 = spec_add_variant(spec_add_variant(s, b2, w2, f2), b1, w1, f1);
    if qb == b1 && qw == w1 && qe == f1.ext_spec() {
        lemma_add_variant_frame(spec_add_variant(s, b1, w1, f1), b2, w2, f2, qb, qw, qe);
        lemma_add_variant_found(s, b1, w1, f1);
        lemma_add_variant_found(spec_add_variant(s, b2, w2, f2), b1, w1, f1);
        lemma_add_variant_frame(s, b2, w2, f2, qb, qw, qe);
    } else if qb == b2 && qw == w2 && qe == f2.ext_spec() {
        lemma_add_variant_frame(spec_add_variant(s, b2, w2, f2), b1, w1, f1, qb, qw, qe);
        lemma_add_variant_found(s, b2, w2, f2);
        lemma_add_variant_found(spec_add_variant(s, b1, w1, f1), b2, w2, f2);
        lemma_add_variant_frame(s, b1, w1, f1, qb, qw, qe);
    } else {
        lemma_add_variant_frame(spec_add_variant(s, b1, w1, f1), b2, w2, f2, qb, qw, qe);
        lemma_add_variant_frame(s, b1, w1, f1, qb, qw, qe);
        lemma_add_variant_frame(spec_add_variant(s, b2, w2, f2), b1, w1, f1, qb, qw, qe);
        lemma_add_variant_frame(s, b2, w2, f2, qb, qw, qe);
    }
}

/// Law: after building from any sequence of descriptors, a file name is
/// stored under every descriptor's (base name, width, extension) triple —
/// dropped attempts never push out the ones that succeeded.
pub proof fn lemma_add_variants_complete(
    s: Seq<(Seq<char>, RecordView)>,
    ds: Seq<(Seq<char>, u32, ImageFormat)>,
    x: int,
)
    requires
        0 <= x < ds.len(),
    ensures
        spec_lookup(spec_add_variants(s, ds), ds[x].0, ds[x].1, ds[x].2.ext_spec()) is Some,
    decreases ds.len(),
{
    let prev = spec_add_variants(s, ds.drop_last());
    let t = ds.last();
    if x == ds.len() - 1 {
        lemma_add_variant_found(prev, t.0, t.1, t.2);
    } else {
        assert(ds.drop_last()[x] == ds[x]);
        lemma_add_variants_complete(s, ds.drop_last(), x);
        if ds[x].0 == t.0 && ds[x].1 == t.1 && ds[x].2.ext_spec() == t.2.ext_spec() {
            lemma_add_variant_found(prev, t.0, t.1, t.2);
        } else {
            lemma_add_variant_frame(prev, t.0, t.1, t.2, ds[x].0, ds[x].1, ds[x].2.ext_spec());
        }
    }
}

/// Law: a record once present is never changed by `add_record`; in particular
/// its placeholder, once set, stays.
pub proof fn lemma_add_record_keeps_existing(
    s: Seq<(Seq<char>, RecordView)>,
    base: Seq<char>,
    lqip: Option<LqipView>,
    qb: Seq<char>,
)
    ensures
        spec_lqip(s, qb) is Some ==> spec_lqip(spec_add_record(s, base, lqip), qb) == spec_lqip(
            s,
            qb,
        ),
{
    lemma_find_key_props(s, base);
    lemma_find_key_props(s, qb);
    if find_key(s, base) < 0 && spec_lqip(s, qb) is Some {
        let e = (base, RecordView { lqip, widths: Seq::empty() });
        lemma_find_key_push(s, qb, e);
        assert(s.push(e)[find_key(s, qb)] == s[find_key(s, qb)]);
    }
}

/// Law: `add_variant` never touches a stored placeholder, and a record it has
/// to create itself gets an absent placeholder.
pub proof fn lemma_add_variant_keeps_lqip(
    s: Seq<(Seq<char>, RecordView)>,
    base: Seq<char>,
    width: u32,
    format: ImageFormat,
    qb: Seq<char>,
)
    ensures
        spec_lqip(s, qb) is Some ==> spec_lqip(spec_add_variant(s, base, width, format), qb)
            == spec_lqip(s, qb),
        spec_lqip(s, base) is None ==> spec_lqip(spec_add_variant(s, base, width, format), base)
            == Some(None::<LqipView>),
{
    let ext = format.ext_spec();
    let fname = spec_file_name(base, width, format);
    let s1 = spec_add_variant(s, base, width, format);
    lemma_find_key_props(s, base);
    lemma_find_key_props(s, qb);
    let i = find_key(s, base);
    if i < 0 {
        let e = (base, RecordView { lqip: None, widths: seq![(width, seq![(ext, fname)])] });
        lemma_find_key_push(s, qb, e);
        lemma_find_key_push(s, base, e);
        assert(find_key(s1, base) == s.len());
        if find_key(s, qb) >= 0 {
            assert(s1[find_key(s, qb)] == s[find_key(s, qb)]);
        }
    } else {
        if s1 != s {
            lemma_find_key_same_keys(s1, s, qb);
            lemma_find_key_same_keys(s1, s, base);
            if find_key(s, qb) >= 0 {
                if find_key(s, qb) != i {
                    assert(s1[find_key(s, qb)] == s[find_key(s, qb)]);
                } else {
                    assert(s1[i].1.lqip == s[i].1.lqip);
                }
            }
        }
    }
}

/// Adding a variant keeps every level's keys distinct.
pub proof fn lemma_spec_add_variant_wf(
    s: Seq<(Seq<char>, RecordView)>,
    base: Seq<char>,
    width: u32,
    format: ImageFormat,
)
    requires
        manifest_wf(s),
    ensures
        manifest_wf(spec_add_variant(s, base, width, format)),
{
    let t = spec_add_variant(s, base, width, format);
    let ext = format.ext_spec();
    lemma_find_key_props(s, base);
    let i = find_key(s, base);
    if i < 0 {
        assert forall|x: int, y: int| 0 <= x < y < t.len() implies t[x].0 != t[y].0 by {
            if y < s.len() {
            } else {
                assert(t[x].0 == s[x].0);
                assert(s[x].0 != base);
            }
        }
        assert(manifest_wf(t));
    } else {
        let r = s[i].1;
        lemma_find_key_props(r.widths, width);
        let j = find_key(r.widths, width);
        if j < 0 {
            let r2 = t[i].1;
            assert(r2.widths == r.widths.push((width, seq![(ext, spec_file_name(base, width, format))])));
            assert forall|x: int, y: int| 0 <= x < y < r2.widths.len() implies r2.widths[x].0
                != r2.widths[y].0 by {
                if y < r.widths.len() {
                } else {
                    assert(r2.widths[x].0 == r.widths[x].0);
                    assert(r.widths[x].0 != width);
                }
            }
            assert(record_wf(r2));
            assert(manifest_wf(t));
        } else {
            let tv = r.widths[j].1;
            lemma_find_key_props(tv, ext);
            let k = find_key(tv, ext);
            if k < 0 {
                let r2 = t[i].1;
                let tv2 = tv.push((ext, spec_file_name(base, width, format)));
                assert(r2.widths == r.widths.update(j, (width, tv2)));
                assert forall|x: int, y: int| 0 <= x < y < tv2.len() implies tv2[x].0 != tv2[y].0 by {
                    if y < tv.len() {
                    } else {
                        assert(tv2[x].0 == tv[x].0);
                        assert(tv[x].0 != ext);
                    }
                }
                assert(keys_distinct(tv2));
                assert forall|x: int, y: int| 0 <= x < y < r2.widths.len() implies r2.widths[x].0
                    != r2.widths[y].0 by {
                    assert(r2.widths[x].0 == r.widths[x].0);
                    assert(r2.widths[y].0 == r.widths[y].0);
                }
                assert(record_wf(r2));
                assert(manifest_wf(t));
            } else {
                assert(manifest_wf(t));
            }
        }
    }
}

} // verus!
