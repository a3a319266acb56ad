//! Output container formats and their file extensions.
use vstd::prelude::*;
use vstd::string::StrSliceExecFns;

verus! {

/// Output container formats the user can choose from.
#[derive(Clone, Copy, PartialEq, Eq, Debug, Structural)]
pub enum OutputFormat {
    Png,
    Jpeg,
    WebP,
    Bmp,
    Tiff,
}

/// ASCII lowercase of one character; other characters are unchanged.
pub open spec fn ascii_lower(c: char) -> char {
    if 'A' <= c && c <= 'Z' {
        ((c as u32) + 32) as char
    } else {
        c
    }
}

/// ASCII lowercase of a whole string.
pub open spec fn ascii_lower_seq(s: Seq<char>) -> Seq<char> {
    s.map_values(|c: char| ascii_lower(c))
}

/// The format named by an already lowercased extension.
pub open spec fn format_of_lower_ext(e: Seq<char>) -> Option<OutputFormat> {
    if e == "png"@ {
        Some(OutputFormat::Png)
    } else if e == "jpg"@ || e == "jpeg"@ {
        Some(OutputFormat::Jpeg)
    } else if e == "webp"@ {
        Some(OutputFormat::WebP)
    } else if e == "bmp"@ {
        Some(OutputFormat::Bmp)
    } else if e == "tif"@ || e == "tiff"@ {
        Some(OutputFormat::Tiff)
    } else {
        None
    }
}

/// The format an extension names, ignoring ASCII case.
pub open spec fn format_of_ext(e: Seq<char>) -> Option<OutputFormat> {
    format_of_lower_ext(ascii_lower_seq(e))
}

impl OutputFormat {
    /// All selectable formats, in display order.
    pub const ALL: [OutputFormat; 5] = [
        OutputFormat::Png,
        OutputFormat::Jpeg,
        OutputFormat::WebP,
        OutputFormat::Bmp,
        OutputFormat::Tiff,
    ];

    pub open spec fn label_spec(self) -> Seq<char> {
        match self {
            OutputFormat::Png => "PNG (lossless)"@,
            OutputFormat::Jpeg => "JPEG (lossy)"@,
            OutputFormat::WebP => "WebP (lossless)"@,
            OutputFormat::Bmp => "BMP (lossless)"@,
            OutputFormat::Tiff => "TIFF (lossless)"@,
        }
    }

    pub open spec fn extension_spec(self) -> Seq<char> {
        match self {
            OutputFormat::Png => "png"@,
            OutputFormat::Jpeg => "jpg"@,
            OutputFormat::WebP => "webp"@,
            OutputFormat::Bmp => "bmp"@,
            OutputFormat::Tiff => "tiff"@,
        }
    }

    /// Human-readable label for the GUI.
    pub fn label(self) -> (r: &'static str)
        ensures
            r@ == self.label_spec(),
    {
        match self {
            OutputFormat::Png => "PNG (lossless)",
            OutputFormat::Jpeg => "JPEG (lossy)",
            OutputFormat::WebP => "WebP (lossless)",
            OutputFormat::Bmp => "BMP (lossless)",
            OutputFormat::Tiff => "TIFF (lossless)",
        }
    }

    /// Canonical file extension (without the dot).
    pub fn extension(self) -> (r: &'static str)
        ensures
            r@ == self.extension_spec(),
            format_of_ext(r@) == Some(self),
    {
        proof {
            Self::lemma_extension_roundtrip(self);
        }
        match self {
            OutputFormat::Png => "png",
            OutputFormat::Jpeg => "jpg",
            OutputFormat::WebP => "webp",
            OutputFormat::Bmp => "bmp",
            OutputFormat::Tiff => "tiff",
        }
    }

    /// Whether the format is lossy (and therefore uses the quality setting).
    pub fn is_lossy(self) -> (r: bool)
        ensures
            r <==> self == OutputFormat::Jpeg,
    {
        match self {
            OutputFormat::Jpeg => true,
            _ => false,
        }
    }

    /// Map a file extension to an output format, if we can encode it.
    /// Letters are compared without regard to ASCII case.
    pub fn from_extension(ext: &str) -> (r: Option<OutputFormat>)
        ensures
            r == format_of_ext(ext@),
    {
        if eq_ignore_ascii_case(ext, "png") {
            Some(OutputFormat::Png)
        } else if eq_ignore_ascii_case(ext, "jpg") || eq_ignore_ascii_case(ext, "jpeg") {
            Some(OutputFormat::Jpeg)
        } else if eq_ignore_ascii_case(ext, "webp") {
            Some(OutputFormat::WebP)
        } else if eq_ignore_ascii_case(ext, "bmp") {
            Some(OutputFormat::Bmp)
        } else if eq_ignore_ascii_case(ext, "tif") || eq_ignore_ascii_case(ext, "tiff") {
            Some(OutputFormat::Tiff)
        } else {
            None
        }
    }

    /// Every format's canonical extension maps back to that format.
    pub proof fn lemma_extension_roundtrip(f: OutputFormat)
        ensures
            format_of_ext(f.extension_spec()) == Some(f),
    {
        reveal_strlit("png");
        reveal_strlit("jpg");
        reveal_strlit("jpeg");
        reveal_strlit("webp");
        reveal_strlit("bmp");
        reveal_strlit("tif");
        reveal_strlit("tiff");
        let e = f.extension_spec();
        assert(ascii_lower_seq(e) =~= e);
        let png = "png"@;
        let jpg = "jpg"@;
        let jpeg = "jpeg"@;
        let webp = "webp"@;
        let bmp = "bmp"@;
        let tif = "tif"@;
        assert(png[0] == 'p' && jpg[0] == 'j' && jpeg[0] == 'j' && webp[0] == 'w' && bmp[0] == 'b'
            && tif[0] == 't');
        assert(png.len() == 3 && jpg.len() == 3 && jpeg.len() == 4 && webp.len() == 4 && bmp.len()
            == 3 && tif.len() == 3);
        assert(e[0] == f.extension_spec()[0]);
    }
}

/// Lowercase ASCII letters; any other character is returned unchanged.
fn to_ascii_lower(c: char) -> (r: char)
    ensures
        r == ascii_lower(c),
{
    if 'A' <= c && c <= 'Z' {
        let b: u8 = (c as u8) + 32;
        proof {
            assert(b as char == ((c as u32) + 32) as char);
        }
        b as char
    } else {
        c
    }
}

/// Whether `s`, lowercased, equals `lower` (which is already lowercase).
fn eq_ignore_ascii_case(s: &str, lower: &str) -> (r: bool)
    ensures
        r == (ascii_lower_seq(s@) == lower@),
{
    let n = s.unicode_len();
    let m = lower.unicode_len();
    if n != m {
        proof {
            assert(ascii_lower_seq(s@).len() != lower@.len());
        }
        return false;
    }
    let mut i: usize = 0;
    while i < n
        invariant
            n == s@.len(),
            m == lower@.len(),
            n == m,
            i <= n,
            forall|j: int| 0 <= j < i ==> ascii_lower(s@[j]) == lower@[j],
        decreases n - i,
    {
        let c = to_ascii_lower(s.get_char(i));
        if c != lower.get_char(i) {
            proof {
                assert(ascii_lower_seq(s@)[i as int] != lower@[i as int]);
            }
            return false;
        }
        i = i + 1;
    }
    proof {
        assert(ascii_lower_seq(s@) =~= lower@);
    }
    true
}

} // verus!
