use vstd::prelude::*;
use vstd::string::StringSliceAdditionalSpecFns;

verus! {

/// The encodings an output file can be written in, chosen by its extension.
#[derive(Clone, Copy, Debug, PartialEq, Eq, Structural)]
pub enum OutputFormat {
    Png,
    Jpeg,
    Gif,
    WebP,
    Tiff,
    Tga,
    Bmp,
    Ico,
    Hdr,
    OpenExr,
    Pnm,
    Farbfeld,
    Avif,
}

/// Length of the path `s[..n]` once trailing separators and trailing `/.`
/// components are dropped.
pub open spec fn trimmed_len(s: Seq<u8>, n: int) -> int
    decreases n,
{
    if n <= 0 {
        0
    } else if s[n - 1] == 0x2f {
        trimmed_len(s, n - 1)
    } else if n >= 2 && s[n - 1] == 0x2e && s[n - 2] == 0x2f {
        trimmed_len(s, n - 2)
    } else {
        n
    }
}

/// Start of the last component of `s[..n]`: just after its last `/`, or 0.
pub open spec fn name_start(s: Seq<u8>, n: int) -> int
    decreases n,
{
    if n <= 0 {
        0
    } else if s[n - 1] == 0x2f {
        n
    } else {
        name_start(s, n - 1)
    }
}

/// Index of the last `.` in `s[lo..n]`, or `lo - 1` when there is none.
pub open spec fn last_dot(s: Seq<u8>, lo: int, n: int) -> int
    decreases n - lo,
{
    if n <= lo {
        lo - 1
    } else if s[n - 1] == 0x2e {
        n - 1
    } else {
        last_dot(s, lo, n - 1)
    }
}

/// The extension of a path, as the range of its bytes after the last `.` of
/// the file name; none when the name has no `.` past its first byte.
pub open spec fn extension_range(s: Seq<u8>) -> Option<(int, int)> {
    let end = trimmed_len(s, s.len() as int);
    let start = name_start(s, end);
    let dot = last_dot(s, start, end);
    if dot <= start {
        None
    } else {
        Some((dot + 1, end))
    }
}

/// The format that an extension names.
pub open spec fn format_of_extension(w: Seq<u8>) -> Option<OutputFormat> {
    if w == seq![0x70u8, 0x6e, 0x67] {
        Some(OutputFormat::Png)
    } else if w == seq![0x6au8, 0x70, 0x65, 0x67] || w == seq![0x6au8, 0x70, 0x67] {
        Some(OutputFormat::Jpeg)
    } else if w == seq![0x67u8, 0x69, 0x66] {
        Some(OutputFormat::Gif)
    } else if w == seq![0x77u8, 0x65, 0x62, 0x70] {
        Some(OutputFormat::WebP)
    } else if w == seq![0x74u8, 0x69, 0x66, 0x66] {
        Some(OutputFormat::Tiff)
    } else if w == seq![0x74u8, 0x67, 0x61] {
        Some(OutputFormat::Tga)
    } else if w == seq![0x62u8, 0x6d, 0x70] {
        Some(OutputFormat::Bmp)
    } else if w == seq![0x69u8, 0x63, 0x6f] {
        Some(OutputFormat::Ico)
    } else if w == seq![0x68u8, 0x64, 0x72] {
        Some(OutputFormat::Hdr)
    } else if w == seq![0x6fu8, 0x70, 0x65, 0x6e, 0x65, 0x78, 0x72] {
        Some(OutputFormat::OpenExr)
    } else if w == seq![0x70u8, 0x6e, 0x6d] {
        Some(OutputFormat::Pnm)
    } else if w == seq![0x66u8, 0x61, 0x72, 0x62, 0x66, 0x65, 0x6c, 0x64] {
        Some(OutputFormat::Farbfeld)
    } else if w == seq![0x61u8, 0x76, 0x69, 0x66] {
        Some(OutputFormat::Avif)
    } else {
        None
    }
}

/// The format that the extension of a path (given by its UTF-8 bytes) names.
pub open spec fn format_of_path(s: Seq<u8>) -> Option<OutputFormat> {
    match extension_range(s) {
        None => None,
        Some((lo, hi)) => format_of_extension(s.subrange(lo, hi)),
    }
}

fn word_is(b: &[u8], lo: usize, hi: usize, w: &[u8]) -> (r: bool)
    requires
        lo <= hi <= b@.len(),
    ensures
        r == (b@.subrange(lo as int, hi as int) == w@),
{
    if hi - lo != w.len() {
        return false;
    }
    let mut i: usize = 0;
    while i < w.len()
        invariant
            lo <= hi <= b@.len(),
            hi - lo == w@.len(),
            0 <= i <= w@.len(),
            forall|k: int| 0 <= k < i ==> b@[lo + k] == #[trigger] w@[k],
        decreases w@.len() - i,
    {
        if b[lo + i] != w[i] {
            assert(b@.subrange(lo as int, hi as int)[i as int] != w@[i as int]);
            return false;
        }
        i = i + 1;
    }
    assert(b@.subrange(lo as int, hi as int) =~= w@);
    true
}

fn extension_of(b: &[u8]) -> (r: Option<(usize, usize)>)
    ensures
        match extension_range(b@) {
            None => r is None,
            Some((lo, hi)) => 0 <= lo <= hi <= b@.len() && r == Some((lo as usize, hi as usize)),
        },
        match r {
            None => true,
            Some((lo, hi)) => lo <= hi <= b@.len(),
        },
{
    let mut end = b.len();
    while end > 0 && (b[end - 1] == 0x2f || (end >= 2 && b[end - 1] == 0x2e && b[end - 2] == 0x2f))
        invariant
            end <= b@.len(),
            trimmed_len(b@, end as int) == trimmed_len(b@, b@.len() as int),
        decreases end,
    {
        if b[end - 1] == 0x2f {
            end = end - 1;
        } else {
            end = end - 2;
        }
    }
    assert(trimmed_len(b@, end as int) == end);
    let mut start = end;
    while start > 0 && b[start - 1] != 0x2f
        invariant
            start <= end <= b@.len(),
            name_start(b@, start as int) == name_start(b@, end as int),
        decreases start,
    {
        start = start - 1;
    }
    let mut dot = end;
    while dot > start && b[dot - 1] != 0x2e
        invariant
            start <= dot <= end <= b@.len(),
            last_dot(b@, start as int, dot as int) == last_dot(b@, start as int, end as int),
        decreases dot,
    {
        dot = dot - 1;
    }
    if dot <= start + 1 {
        None
    } else {
        Some((dot, end))
    }
}

/// A tone-mapped image: `width * height` pixels of three bytes (red, green,
/// blue), row by row from the top.
#[derive(Debug)]
pub struct Image {
    width: usize,
    height: usize,
    image_data: Vec<u8>,
}

impl Image {
    pub closed spec fn spec_width(&self) -> usize {
        self.width
    }

    pub closed spec fn spec_height(&self) -> usize {
        self.height
    }

    pub closed spec fn spec_data(&self) -> Seq<u8> {
        self.image_data@
    }

    pub fn new(width: usize, height: usize, image_data: Vec<u8>) -> (r: Image)
        requires
            image_data@.len() == 3 * width * height,
        ensures
            r.spec_width() == width,
            r.spec_height() == height,
            r.spec_data() == image_data@,
    {
        Image { width, height, image_data }
    }

    pub fn width(&self) -> (r: usize)
        ensures
            r == self.spec_width(),
    {
        self.width
    }

    pub fn height(&self) -> (r: usize)
        ensures
            r == self.spec_height(),
    {
        self.height
    }

    pub fn data(&self) -> (r: &Vec<u8>)
        ensures
            r@ == self.spec_data(),
    {
        &self.image_data
    }

    /// Whether the extension of `path` names a format an image can be saved in.
    pub fn valid_format(path: &str) -> (r: bool)
        ensures
            r == format_of_path(path.spec_bytes()) is Some,
    {
        Self::format(path).is_some()
    }

    /// The format that the extension of `path` names.
    pub fn format(path: &str) -> (r: Option<OutputFormat>)
        ensures
            r == format_of_path(path.spec_bytes()),
    {
        let b = path.as_bytes();
        let ext = extension_of(b);
        if ext.is_none() {
            return None;
        }
        let (lo, hi) = ext.unwrap();
        let len = b.len();
        assert(extension_range(b@) == Some((lo as int, hi as int))) by {
            assert(b@.len() == len);
        }
        let png: &[u8] = &[0x70, 0x6e, 0x67];
        let jpeg: &[u8] = &[0x6a, 0x70, 0x65, 0x67];
        let jpg: &[u8] = &[0x6a, 0x70, 0x67];
        let gif: &[u8] = &[0x67, 0x69, 0x66];
        let webp: &[u8] = &[0x77, 0x65, 0x62, 0x70];
        let tiff: &[u8] = &[0x74, 0x69, 0x66, 0x66];
        let tga: &[u8] = &[0x74, 0x67, 0x61];
        let bmp: &[u8] = &[0x62, 0x6d, 0x70];
        let ico: &[u8] = &[0x69, 0x63, 0x6f];
        let hdr: &[u8] = &[0x68, 0x64, 0x72];
        let openexr: &[u8] = &[0x6f, 0x70, 0x65, 0x6e, 0x65, 0x78, 0x72];
        let pnm: &[u8] = &[0x70, 0x6e, 0x6d];
        let farbfeld: &[u8] = &[0x66, 0x61, 0x72, 0x62, 0x66, 0x65, 0x6c, 0x64];
        let avif: &[u8] = &[0x61, 0x76, 0x69, 0x66];
        proof {
            assert(png@ =~= seq![0x70u8, 0x6e, 0x67]);
            assert(jpeg@ =~= seq![0x6au8, 0x70, 0x65, 0x67]);
            assert(jpg@ =~= seq![0x6au8, 0x70, 0x67]);
            assert(gif@ =~= seq![0x67u8, 0x69, 0x66]);
            assert(webp@ =~= seq![0x77u8, 0x65, 0x62, 0x70]);
            assert(tiff@ =~= seq![0x74u8, 0x69, 0x66, 0x66]);
            assert(tga@ =~= seq![0x74u8, 0x67, 0x61]);
            assert(bmp@ =~= seq![0x62u8, 0x6d, 0x70]);
            assert(ico@ =~= seq![0x69u8, 0x63, 0x6f]);
            assert(hdr@ =~= seq![0x68u8, 0x64, 0x72]);
            assert(openexr@ =~= seq![0x6fu8, 0x70, 0x65, 0x6e, 0x65, 0x78, 0x72]);
            assert(pnm@ =~= seq![0x70u8, 0x6e, 0x6d]);
            assert(farbfeld@ =~= seq![0x66u8, 0x61, 0x72, 0x62, 0x66, 0x65, 0x6c, 0x64]);
            assert(avif@ =~= seq![0x61u8, 0x76, 0x69, 0x66]);
        }
        if word_is(b, lo, hi, png) {
            Some(OutputFormat::Png)
        } else if word_is(b, lo, hi, jpeg) {
            Some(OutputFormat::Jpeg)
        } else if word_is(b, lo, hi, jpg) {
            Some(OutputFormat::Jpeg)
        } else if word_is(b, lo, hi, gif) {
            Some(OutputFormat::Gif)
        } else if word_is(b, lo, hi, webp) {
            Some(OutputFormat::WebP)
        } else if word_is(b, lo, hi, tiff) {
            Some(OutputFormat::Tiff)
        } else if word_is(b, lo, hi, tga) {
            Some(OutputFormat::Tga)
        } else if word_is(b, lo, hi, bmp) {
            Some(OutputFormat::Bmp)
        } else if word_is(b, lo, hi, ico) {
            Some(OutputFormat::Ico)
        } else if word_is(b, lo, hi, hdr) {
            Some(OutputFormat::Hdr)
        } else if word_is(b, lo, hi, openexr) {
            Some(OutputFormat::OpenExr)
        } else if word_is(b, lo, hi, pnm) {
            Some(OutputFormat::Pnm)
        } else if word_is(b, lo, hi, farbfeld) {
            Some(OutputFormat::Farbfeld)
        } else if word_is(b, lo, hi, avif) {
            Some(OutputFormat::Avif)
        } else {
            None
        }
    }
}

} // verus!
