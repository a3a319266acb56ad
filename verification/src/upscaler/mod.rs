//! Upscaling core, independent of any user interface: output naming,
//! formats, model catalogue helpers and tiled-processing geometry.

pub mod download;
pub mod image_io;
pub mod pipeline;
pub mod tiling;

use vstd::prelude::*;
use vstd::string::StringExecFns;

use crate::upscaler::image_io::{format_of_ext, OutputFormat};

verus! {

/// `s` without its trailing `/` characters.
pub open spec fn trim_slashes(s: Seq<char>) -> Seq<char>
    decreases s.len(),
{
    if s.len() > 0 && s.last() == '/' {
        trim_slashes(s.drop_last())
    } else {
        s
    }
}

/// The text after the last `/` of `s` (all of `s` when it has none).
pub open spec fn after_last_slash(s: Seq<char>) -> Seq<char>
    decreases s.len(),
{
    if s.len() == 0 {
        s
    } else if s.last() == '/' {
        Seq::empty()
    } else {
        after_last_slash(s.drop_last()).push(s.last())
    }
}

/// The final component of a path that uses only `/` as separator: the text
/// after its last `/`, trailing `/` ignored.
pub open spec fn final_component(p: Seq<char>) -> Seq<char> {
    after_last_slash(trim_slashes(p))
}

/// A path that every platform splits the same way: no `\`, no `:` (so no
/// Windows drive, UNC or verbatim prefix), not starting with `//`, and whose
/// final component is a file name (not empty, `.` or `..`).
pub open spec fn simple_path(p: Seq<char>) -> bool {
    &&& !p.contains('\\')
    &&& !p.contains(':')
    &&& !(p.len() >= 2 && p[0] == '/' && p[1] == '/')
    &&& final_component(p).len() > 0
    &&& final_component(p) != seq!['.']
    &&& final_component(p) != seq!['.', '.']
}

/// Position of the last `.` in `f`, or `-1` when it has none.
pub open spec fn last_dot(f: Seq<char>) -> int
    decreases f.len(),
{
    if f.len() == 0 {
        -1
    } else if f.last() == '.' {
        f.len() - 1
    } else {
        last_dot(f.drop_last())
    }
}

/// The stem of file name `f`: all of it when it has no dot, or only a leading
/// one; otherwise the part before its last dot.
pub open spec fn stem_of_name(f: Seq<char>) -> Seq<char> {
    if last_dot(f) <= 0 {
        f
    } else {
        f.subrange(0, last_dot(f))
    }
}

/// The extension of file name `f`: none when it has no dot, or only a
/// leading one; otherwise the part after its last dot.
pub open spec fn ext_of_name(f: Seq<char>) -> Option<Seq<char>> {
    if last_dot(f) <= 0 {
        None
    } else {
        Some(f.subrange(last_dot(f) + 1, f.len() as int))
    }
}

/// A path text that starts with a Windows verbatim prefix (`\\?\`). In such
/// paths `/` is no separator, and joining onto such a directory normalizes
/// the whole path.
pub open spec fn verbatim_dir(dir: Seq<char>) -> bool {
    seq!['\\', '\\', '?', '\\'].is_prefix_of(dir)
}

/// Calls `std::path::Path::file_stem`: the input's file name without its
/// final extension, or `None` when it has no file name. What the
/// documentation gives on every platform is stated: the stem is never empty
/// (a name with no dot, or with a single leading dot, is its own stem); outside
/// verbatim paths it holds no `/`, a separator there on every platform; and for
/// a simple path (see [`simple_path`]) it is the stem of the final component,
/// split at its last dot as documented. Other paths follow the platform's
/// rules, which are not stated. The text of a `&str` path is valid UTF-8, so
/// the conversion back to a `String` loses nothing.
#[verifier::external_body]
pub(crate) fn file_stem_of(path: &str) -> (r: Option<String>)
    ensures
        r matches Some(s) ==> s@.len() > 0,
        !verbatim_dir(path@) ==> (r matches Some(s) ==> !s@.contains('/')),
        simple_path(path@) ==> opt_string_view(r) == Some(stem_of_name(final_component(path@))),
{
    match std::path::Path::new(path).file_stem() {
        Some(s) => Some(s.to_string_lossy().into_owned()),
        None => None,
    }
}

/// Calls `std::path::Path::extension`: the input's final extension, if any.
/// What holds on every platform is stated: it is the part of the final
/// component after its last dot, so it holds no dot, and outside verbatim
/// paths no `/`; for a simple path it is the extension of the final
/// component, as documented. Other paths follow the platform's rules.
#[verifier::external_body]
pub(crate) fn extension_of(path: &str) -> (r: Option<String>)
    ensures
        r matches Some(e) ==> !e@.contains('.'),
        !verbatim_dir(path@) ==> (r matches Some(e) ==> !e@.contains('/')),
        simple_path(path@) ==> opt_string_view(r) == ext_of_name(final_component(path@)),
{
    match std::path::Path::new(path).extension() {
        Some(s) => Some(s.to_string_lossy().into_owned()),
        None => None,
    }
}

/// A single plain file name: not empty, not `.` or `..`, and free of `/`,
/// `\` and `:`, so no platform reads a separator, root or prefix in it.
pub open spec fn plain_name(name: Seq<char>) -> bool {
    &&& name.len() > 0
    &&& name != seq!['.']
    &&& name != seq!['.', '.']
    &&& !name.contains('/')
    &&& !name.contains('\\')
    &&& !name.contains(':')
}

/// A bare Windows drive such as `C:`: a letter and a colon, nothing more.
/// A name joined onto it on Windows is relative to that drive's current
/// folder and gets no separator.
pub open spec fn drive_only(dir: Seq<char>) -> bool {
    &&& dir.len() == 2
    &&& dir[1] == ':'
    &&& (('a' <= dir[0] && dir[0] <= 'z') || ('A' <= dir[0] && dir[0] <= 'Z'))
}

/// `path` is the plain file name `name` joined onto `dir`: `name` itself onto
/// an empty `dir`; `dir` and `name` when `dir` ends with `/`; `dir`, one
/// separator (`/` or `\`, the platform's own) and `name` when `dir` ends with
/// neither and is not a bare drive; otherwise (a `dir` ending with `\`, a
/// separator on Windows only, or a bare drive, joined without separator on
/// Windows only) `dir` and `name`, with or without a `/`.
pub open spec fn joined(dir: Seq<char>, name: Seq<char>, path: Seq<char>) -> bool {
    if dir.len() == 0 {
        path == name
    } else if dir.last() == '/' {
        path == dir + name
    } else if dir.last() == '\\' || drive_only(dir) {
        path == dir + name || path == dir + seq!['/'] + name
    } else {
        path == dir + seq!['/'] + name || path == dir + seq!['\\'] + name
    }
}

/// `path` lies directly inside `dir`: `dir`, one separator (`/` or `\`), then
/// `name`.
pub open spec fn directly_inside(dir: Seq<char>, name: Seq<char>, path: Seq<char>) -> bool {
    path == dir + seq!['/'] + name || path == dir + seq!['\\'] + name
}

/// A folder text that needs a separator before a name: not empty, not ending
/// with `/` or `\`, and not a bare drive.
pub open spec fn needs_separator(dir: Seq<char>) -> bool {
    &&& dir.len() > 0
    &&& dir.last() != '/'
    &&& dir.last() != '\\'
    &&& !drive_only(dir)
}

/// A plain file name joined onto a folder that needs a separator lies
/// directly inside that folder: the path is the folder, exactly one
/// separator, and the name, so the folder is its parent.
pub proof fn lemma_joined_inside(dir: Seq<char>, name: Seq<char>, path: Seq<char>)
    requires
        joined(dir, name, path),
        needs_separator(dir),
    ensures
        path.len() == dir.len() + 1 + name.len(),
        path.subrange(0, dir.len() as int) == dir,
        path[dir.len() as int] == '/' || path[dir.len() as int] == '\\',
        path.subrange(dir.len() as int + 1, path.len() as int) == name,
{
    assert(path.subrange(0, dir.len() as int) =~= dir);
    assert(path.subrange(dir.len() as int + 1, path.len() as int) =~= name);
}

/// Calls `std::path::Path::join` (`PathBuf::push`). What is stated holds on
/// every platform by the documentation, for a `dir` without a verbatim prefix
/// (onto which Windows normalizes the joined path): `name` either extends
/// `dir` or replaces all or part of it, and so ends the result; and a plain
/// file name extends `dir` as [`joined`] describes: exactly one separator
/// (the platform's own) after a non-empty `dir` that does not end with `/` or
/// `\` and is not a bare drive, whatever else it holds.
#[verifier::external_body]
pub(crate) fn join_path(dir: &str, name: &str) -> (r: String)
    ensures
        !verbatim_dir(dir@) ==> name@.is_suffix_of(r@),
        !verbatim_dir(dir@) && plain_name(name@) ==> joined(dir@, name@, r@),
{
    std::path::Path::new(dir).join(name).to_string_lossy().into_owned()
}

/// A joined path starts with its directory.
pub proof fn lemma_joined_prefix(dir: Seq<char>, name: Seq<char>, path: Seq<char>)
    requires
        joined(dir, name, path),
    ensures
        dir.is_prefix_of(path),
        name.is_suffix_of(path),
{
    assert(path.subrange(0, dir.len() as int) =~= dir);
    assert(path.subrange(path.len() - name.len(), path.len() as int) =~= name);
}

/// The file stem to use: the input's own, or `image` when it has none.
pub open spec fn stem_or_default(stem: Option<Seq<char>>) -> Seq<char> {
    match stem {
        Some(s) => s,
        None => "image"@,
    }
}

/// The output format and extension chosen for an input whose extension is
/// `ext`: the input's own when asked to keep it and it is encodable (the
/// extension text is then reused verbatim), else the chosen `format`.
pub open spec fn chosen_format_and_ext(
    ext: Option<Seq<char>>,
    format: OutputFormat,
    keep_input_format: bool,
) -> (OutputFormat, Seq<char>) {
    if keep_input_format && ext is Some && format_of_ext(ext->0) is Some {
        (format_of_ext(ext->0)->0, ext->0)
    } else {
        (format, format.extension_spec())
    }
}

/// The output file name `<stem><suffix>.<ext>` and its format.
pub open spec fn output_name_spec(
    stem: Option<Seq<char>>,
    ext: Option<Seq<char>>,
    format: OutputFormat,
    keep_input_format: bool,
    suffix: Seq<char>,
) -> (Seq<char>, OutputFormat) {
    let (fmt, e) = chosen_format_and_ext(ext, format, keep_input_format);
    (stem_or_default(stem) + suffix + "."@ + e, fmt)
}

/// Build the output file name from an input's stem and extension (as
/// `Path::file_stem` and `Path::extension` give them).
pub fn output_file_name(
    stem: Option<&str>,
    ext: Option<&str>,
    format: OutputFormat,
    keep_input_format: bool,
    suffix: &str,
) -> (r: (String, OutputFormat))
    ensures
        r.0@ == output_name_spec(opt_view(stem), opt_view(ext), format, keep_input_format, suffix@).0,
        r.1 == output_name_spec(opt_view(stem), opt_view(ext), format, keep_input_format, suffix@).1,
{
    let mut name = match stem {
        Some(s) => String::from_str(s),
        None => String::from_str("image"),
    };
    let mut fmt = format;
    let mut e: &str = format.extension();
    if keep_input_format {
        if let Some(x) = ext {
            if let Some(f) = OutputFormat::from_extension(x) {
                fmt = f;
                e = x;
            }
        }
    }
    name.append(suffix);
    name.append(".");
    name.append(e);
    (name, fmt)
}

/// The view of an optional string slice.
pub open spec fn opt_view(s: Option<&str>) -> Option<Seq<char>> {
    match s {
        Some(x) => Some(x@),
        None => None,
    }
}

/// The view of an optional string.
pub open spec fn opt_string_view(s: Option<String>) -> Option<Seq<char>> {
    match s {
        Some(x) => Some(x@),
        None => None,
    }
}

/// Borrow the text of an optional string.
pub(crate) fn opt_as_str(s: &Option<String>) -> (r: Option<&str>)
    ensures
        opt_view(r) == opt_string_view(*s),
{
    match s {
        Some(x) => Some(x.as_str()),
        None => None,
    }
}

/// Decide the output path and format for one input file.
///
/// When `keep_input_format` is set and the input's extension is one we can
/// encode, that format/extension is reused; otherwise we fall back to the
/// user's chosen `format`. `suffix` is appended to the file stem (e.g.
/// `cat` + `_x4` -> `cat_x4.png`), and the name is joined onto `out_dir`.
/// The result is the name [`output_file_name`] builds from the input's stem
/// and extension, joined onto `out_dir`. For a simple input path (see
/// [`simple_path`]) the stem and extension are those of its final component;
/// other paths are split by the platform's rules. When the name is a plain
/// file name, the path is `out_dir` extended by it as [`joined`] describes
/// (e.g. `/in/cat.jpg`, `/out`, `_x4`, PNG gives `/out/cat_x4.png`, with the
/// platform's separator).
pub fn resolve_output(
    input: &str,
    out_dir: &str,
    format: OutputFormat,
    keep_input_format: bool,
    suffix: &str,
) -> (r: (String, OutputFormat))
    ensures
        exists|stem: Option<Seq<char>>, ext: Option<Seq<char>>|
            {
                let named = #[trigger] output_name_spec(stem, ext, format, keep_input_format, suffix@);
                &&& (simple_path(input@) ==> stem == Some(stem_of_name(final_component(input@))) && ext
                    == ext_of_name(final_component(input@)))
                &&& (stem matches Some(s) ==> s.len() > 0 && (!verbatim_dir(input@) ==> !s.contains('/')))
                &&& (ext matches Some(e) ==> !e.contains('.') && (!verbatim_dir(input@) ==> !e.contains('/')))
                &&& r.1 == named.1
                &&& (!verbatim_dir(out_dir@) ==> named.0.is_suffix_of(r.0@))
                &&& (!verbatim_dir(out_dir@) && plain_name(named.0) ==> joined(out_dir@, named.0, r.0@)
                    && out_dir@.is_prefix_of(r.0@))
                &&& (!verbatim_dir(out_dir@) && plain_name(named.0) && needs_separator(out_dir@)
                    ==> directly_inside(out_dir@, named.0, r.0@))
            },
{
    let stem = file_stem_of(input);
    let ext = extension_of(input);
    let (name, fmt) = output_file_name(
        opt_as_str(&stem),
        opt_as_str(&ext),
        format,
        keep_input_format,
        suffix,
    );
    let path = join_path(out_dir, name.as_str());
    proof {
        let named = output_name_spec(
            opt_string_view(stem),
            opt_string_view(ext),
            format,
            keep_input_format,
            suffix@,
        );
        assert(name@ == named.0 && fmt == named.1);
        if !verbatim_dir(out_dir@) && plain_name(named.0) {
            lemma_joined_prefix(out_dir@, named.0, path@);
        }
    }
    (path, fmt)
}

} // verus!
