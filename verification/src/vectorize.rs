//! Options for raster-to-vector (SVG) tracing that do not depend on the
//! tracing engine's own types.
use vstd::prelude::*;
use vstd::string::StringExecFns;

use crate::upscaler::{
    directly_inside, file_stem_of, final_component, join_path, joined, needs_separator, lemma_joined_prefix, opt_as_str, opt_string_view,
    opt_view, plain_name, simple_path, stem_of_name, stem_or_default, verbatim_dir,
};

verus! {

/// The SVG file name `<stem><suffix>.svg` for an input whose file stem is
/// `stem` (`image` when it has none).
pub open spec fn svg_name_spec(stem: Option<Seq<char>>, suffix: Seq<char>) -> Seq<char> {
    stem_or_default(stem) + suffix + ".svg"@
}

/// Build the SVG file name from an input's file stem (as `Path::file_stem`
/// gives it).
pub fn svg_file_name(stem: Option<&str>, suffix: &str) -> (r: String)
    ensures
        r@ == svg_name_spec(opt_view(stem), suffix@),
{
    let mut name = match stem {
        Some(s) => String::from_str(s),
        None => String::from_str("image"),
    };
    name.append(suffix);
    name.append(".svg");
    name
}

/// Output path for a traced image: `<stem><suffix>.svg` inside `out_dir`.
/// The result is the name [`svg_file_name`] builds from the input's stem,
/// joined onto `out_dir`. For a simple input path (see [`simple_path`]) the
/// stem is that of its final component; other paths are split by the
/// platform's rules. When the name is a plain file name, the path is
/// `out_dir` extended by it as [`joined`] describes (e.g. `/in/logo.png`,
/// `/out`, `_vec` gives `/out/logo_vec.svg`, with the platform's separator).
pub fn svg_output_path(input: &str, out_dir: &str, suffix: &str) -> (r: String)
    ensures
        exists|stem: Option<Seq<char>>|
            {
                let name = #[trigger] svg_name_spec(stem, suffix@);
                &&& (simple_path(input@) ==> stem == Some(stem_of_name(final_component(input@))))
                &&& (stem matches Some(s) ==> s.len() > 0 && (!verbatim_dir(input@) ==> !s.contains('/')))
                &&& (!verbatim_dir(out_dir@) ==> name.is_suffix_of(r@))
                &&& (!verbatim_dir(out_dir@) && plain_name(name) ==> joined(out_dir@, name, r@)
                    && out_dir@.is_prefix_of(r@))
                &&& (!verbatim_dir(out_dir@) && plain_name(name) && needs_separator(out_dir@)
                    ==> directly_inside(out_dir@, name, r@))
            },
{
    let stem = file_stem_of(input);
    let name = svg_file_name(opt_as_str(&stem), suffix);
    let path = join_path(out_dir, name.as_str());
    proof {
        let n = svg_name_spec(opt_string_view(stem), suffix@);
        assert(name@ == n);
        if !verbatim_dir(out_dir@) && plain_name(n) {
            lemma_joined_prefix(out_dir@, n, path@);
        }
    }
    path
}

/// How colors are handled: full color clustering vs. a single black/white layer.
#[derive(Clone, Copy, PartialEq, Eq, Debug, Structural)]
pub enum VecColorMode {
    Color,
    Binary,
}

impl VecColorMode {
    pub open spec fn label_spec(self) -> Seq<char> {
        match self {
            VecColorMode::Color => "컬러"@,
            VecColorMode::Binary => "흑백"@,
        }
    }

    /// Display label of the mode.
    pub fn label(self) -> (r: &'static str)
        ensures
            r@ == self.label_spec(),
    {
        match self {
            VecColorMode::Color => "컬러",
            VecColorMode::Binary => "흑백",
        }
    }
}

/// Curve-fitting strategy for the traced outlines.
#[derive(Clone, Copy, PartialEq, Eq, Debug, Structural)]
pub enum CurveMode {
    /// Pixel-accurate (stair-stepped) — no smoothing.
    Pixel,
    /// Straight polygon segments.
    Polygon,
    /// Smooth splines (best for organic shapes).
    Spline,
}

impl CurveMode {
    pub open spec fn label_spec(self) -> Seq<char> {
        match self {
            CurveMode::Pixel => "픽셀 (각짐)"@,
            CurveMode::Polygon => "다각형"@,
            CurveMode::Spline => "곡선 (부드러움)"@,
        }
    }

    /// Display label of the mode.
    pub fn label(self) -> (r: &'static str)
        ensures
            r@ == self.label_spec(),
    {
        match self {
            CurveMode::Pixel => "픽셀 (각짐)",
            CurveMode::Polygon => "다각형",
            CurveMode::Spline => "곡선 (부드러움)",
        }
    }
}

} // verus!
