//! Short status texts shown next to the controls.
use vstd::prelude::*;
use vstd::string::{StrSliceExecFns, StringExecFns, StringSliceAdditionalSpecFns};
use vstd::utf8::{decode_utf8, encode_utf8, encode_utf8_decode_utf8, is_char_boundary};

use crate::upscaler::download::{decimal, human_bytes, human_bytes_spec, write_decimal};

verus! {

/// Byte length of the text `s` in UTF-8.
pub open spec fn utf8_len(s: Seq<char>) -> nat {
    encode_utf8(s).len()
}

/// The display text for an optional output folder: "(미선택)" when none is
/// chosen; the path itself when it takes at most 38 bytes; else an ellipsis
/// followed by the path's last 37 bytes.
pub open spec fn path_hint_spec(dir: Option<Seq<char>>) -> Seq<char> {
    match dir {
        None => "(미선택)"@,
        Some(p) => if utf8_len(p) > 38 {
            seq!['…'] + decode_utf8(encode_utf8(p).subrange(utf8_len(p) - 37, utf8_len(p) as int))
        } else {
            p
        },
    }
}

/// Short display string for an optional output directory.
pub fn path_hint(dir: Option<&str>) -> (r: String)
    requires
        dir matches Some(p) ==> (utf8_len(p@) > 38 ==> is_char_boundary(
            encode_utf8(p@),
            utf8_len(p@) - 37,
        )),
    ensures
        r@ == path_hint_spec(
            match dir {
                Some(p) => Some(p@),
                None => None,
            },
        ),
{
    match dir {
        None => {
            let s = String::from_str("(미선택)");
            proof {
                assert(s@ == "(미선택)"@);
            }
            s
        },
        Some(p) => {
            let n = p.as_bytes().len();
            if n > 38 {
                let (_head, tail) = p.split_at(n - 37);
                let mut s = String::from_str("…");
                s.append(tail);
                proof {
                    encode_utf8_decode_utf8(tail@);
                    reveal_strlit("…");
                    assert(s@ =~= seq!['…'] + tail@);
                }
                s
            } else {
                String::from_str(p)
            }
        },
    }
}

/// `items` joined by `sep`.
pub open spec fn join_with(items: Seq<Seq<char>>, sep: Seq<char>) -> Seq<char>
    decreases items.len(),
{
    if items.len() == 0 {
        Seq::empty()
    } else if items.len() == 1 {
        items[0]
    } else {
        join_with(items.drop_last(), sep) + sep + items.last()
    }
}

/// What still has to be chosen before starting, in order.
pub open spec fn missing_items(no_images: bool, no_output_dir: bool, no_model: bool) -> Seq<Seq<char>> {
    let a: Seq<Seq<char>> = if no_images { seq!["이미지"@] } else { Seq::empty() };
    let b: Seq<Seq<char>> = if no_output_dir { seq!["출력 폴더"@] } else { Seq::empty() };
    let c: Seq<Seq<char>> = if no_model { seq!["모델"@] } else { Seq::empty() };
    a + b + c
}

/// The hint listing what still has to be chosen before starting.
pub open spec fn missing_hint_spec(no_images: bool, no_output_dir: bool, no_model: bool) -> Seq<char> {
    "시작하려면 "@ + join_with(missing_items(no_images, no_output_dir, no_model), " · "@)
        + " 을(를) 지정하세요."@
}

/// The hint asking for what is still missing: the images, the output folder,
/// and (when a model is needed but none is chosen) the model.
pub fn missing_hint(no_images: bool, no_output_dir: bool, no_model: bool) -> (r: String)
    ensures
        r@ == missing_hint_spec(no_images, no_output_dir, no_model),
{
    let mut s = String::from_str("시작하려면 ");
    let ghost mut items: Seq<Seq<char>> = Seq::empty();
    let ghost start = s@;
    let mut first = true;
    if no_images {
        s.append("이미지");
        first = false;
        proof {
            items = items.push("이미지"@);
        }
    }
    proof {
        assert(s@ =~= start + join_with(items, " · "@));
    }
    if no_output_dir {
        if !first {
            s.append(" · ");
        }
        s.append("출력 폴더");
        first = false;
        proof {
            let prev = items;
            items = items.push("출력 폴더"@);
            assert(items.drop_last() =~= prev);
        }
    }
    proof {
        assert(s@ =~= start + join_with(items, " · "@));
        assert(first == (items.len() == 0));
    }
    if no_model {
        if !first {
            s.append(" · ");
        }
        s.append("모델");
        proof {
            let prev = items;
            items = items.push("모델"@);
            assert(items.drop_last() =~= prev);
        }
    }
    proof {
        assert(s@ =~= start + join_with(items, " · "@));
        assert(items =~= missing_items(no_images, no_output_dir, no_model));
    }
    s.append(" 을(를) 지정하세요.");
    proof {
        assert(s@ =~= missing_hint_spec(no_images, no_output_dir, no_model));
    }
    s
}

/// The two kinds of batch job.
#[derive(Clone, Copy, PartialEq, Eq, Debug, Structural)]
pub enum JobKind {
    /// Upscale images with a model.
    Upscale,
    /// Trace images into SVG.
    Vectorize,
}

/// Why a job cannot start yet, checked in order: no output folder, then (for
/// upscaling) no model, then no images; `None` when it can start.
pub open spec fn start_warning_spec(kind: JobKind, has_output_dir: bool, has_model: bool, has_images: bool) -> Option<
    Seq<char>,
> {
    if !has_output_dir {
        Some("⚠ 출력 폴더를 선택하세요."@)
    } else if kind == JobKind::Upscale && !has_model {
        Some("⚠ ONNX 모델 파일을 선택하세요."@)
    } else if !has_images {
        match kind {
            JobKind::Upscale => Some("⚠ 업스케일할 이미지를 선택하세요."@),
            JobKind::Vectorize => Some("⚠ 변환할 이미지를 선택하세요."@),
        }
    } else {
        None
    }
}

/// The warning shown instead of starting a job, if any.
pub fn start_warning(kind: JobKind, has_output_dir: bool, has_model: bool, has_images: bool) -> (r: Option<
    &'static str,
>)
    ensures
        (match r {
            Some(s) => Some(s@),
            None => None,
        }) == start_warning_spec(kind, has_output_dir, has_model, has_images),
{
    if !has_output_dir {
        Some("⚠ 출력 폴더를 선택하세요.")
    } else if kind == JobKind::Upscale && !has_model {
        Some("⚠ ONNX 모델 파일을 선택하세요.")
    } else if !has_images {
        match kind {
            JobKind::Upscale => Some("⚠ 업스케일할 이미지를 선택하세요."),
            JobKind::Vectorize => Some("⚠ 변환할 이미지를 선택하세요."),
        }
    } else {
        None
    }
}

/// The hint names exactly what is missing, each once, in a fixed order
/// (images, output folder, model), and nothing that is chosen.
pub proof fn lemma_missing_items_exact(no_images: bool, no_output_dir: bool, no_model: bool)
    ensures
        ({
            let items = missing_items(no_images, no_output_dir, no_model);
            &&& items.len() == (if no_images { 1int } else { 0 }) + (if no_output_dir { 1int } else { 0 }) + (
            if no_model { 1int } else { 0 })
            &&& items.contains("이미지"@) <==> no_images
            &&& items.contains("출력 폴더"@) <==> no_output_dir
            &&& items.contains("모델"@) <==> no_model
            &&& no_images ==> items[0] == "이미지"@
            &&& no_model ==> items.last() == "모델"@
        }),
{
    reveal_strlit("이미지");
    reveal_strlit("출력 폴더");
    reveal_strlit("모델");
    let a = "이미지"@;
    let b = "출력 폴더"@;
    let c = "모델"@;
    assert(a.len() == 3 && b.len() == 5 && c.len() == 2);
    assert(a != b && a != c && b != c);
    let items = missing_items(no_images, no_output_dir, no_model);
    if items.contains(a) {
        let i = choose|i: int| 0 <= i < items.len() && items[i] == a;
        assert(no_images);
    }
    if items.contains(b) {
        let i = choose|i: int| 0 <= i < items.len() && items[i] == b;
        assert(no_output_dir);
    }
    if items.contains(c) {
        let i = choose|i: int| 0 <= i < items.len() && items[i] == c;
        assert(no_model);
    }
    if no_images {
        assert(items[0] == a);
    }
    if no_output_dir {
        assert(items[if no_images { 1int } else { 0 }] == b);
    }
    if no_model {
        assert(items[items.len() - 1] == c);
    }
}

/// When a job may start, and what stops it: a job starts (no warning) exactly
/// when an output folder and images are chosen and, for upscaling, a model
/// too; a missing output folder is reported first, whatever else is missing;
/// with the folder chosen, an upscale job without a model gets the model
/// warning whether or not images are chosen; and a tracing job never needs a
/// model.
pub proof fn lemma_start_rules(kind: JobKind, has_output_dir: bool, has_model: bool, has_images: bool)
    ensures
        start_warning_spec(kind, has_output_dir, has_model, has_images) is None <==> (has_output_dir
            && has_images && (kind == JobKind::Upscale ==> has_model)),
        !has_output_dir ==> start_warning_spec(kind, has_output_dir, has_model, has_images) == Some(
            "⚠ 출력 폴더를 선택하세요."@,
        ),
        has_output_dir && kind == JobKind::Upscale && !has_model ==> start_warning_spec(
            kind,
            has_output_dir,
            has_model,
            has_images,
        ) == Some("⚠ ONNX 모델 파일을 선택하세요."@),
        has_output_dir && (kind == JobKind::Upscale ==> has_model) && !has_images ==> start_warning_spec(
            kind,
            has_output_dir,
            has_model,
            has_images,
        ) == Some(
            match kind {
                JobKind::Upscale => "⚠ 업스케일할 이미지를 선택하세요."@,
                JobKind::Vectorize => "⚠ 변환할 이미지를 선택하세요."@,
            },
        ),
        kind == JobKind::Vectorize ==> start_warning_spec(kind, has_output_dir, has_model, has_images)
            == start_warning_spec(kind, has_output_dir, !has_model, has_images),
{
}

/// Whether `s` begins with `prefix`.
fn has_prefix(s: &str, prefix: &str) -> (r: bool)
    ensures
        r == prefix@.is_prefix_of(s@),
{
    let n = prefix.unicode_len();
    if s.unicode_len() < n {
        return false;
    }
    let mut i: usize = 0;
    while i < n
        invariant
            n == prefix@.len(),
            n <= s@.len(),
            i <= n,
            forall|j: int| 0 <= j < i ==> prefix@[j] == s@[j],
        decreases n - i,
    {
        if s.get_char(i) != prefix.get_char(i) {
            return false;
        }
        i = i + 1;
    }
    proof {
        assert(s@.subrange(0, n as int) =~= prefix@);
    }
    true
}

/// The status line once a batch job has finished: a cancellation notice
/// (it starts with `취`) or a model-loading failure is kept; anything else
/// gives way to the completion message.
pub open spec fn finished_status_spec(current: Seq<char>) -> Seq<char> {
    if seq!['취'].is_prefix_of(current) || "모델 로드 실패"@.is_prefix_of(current) {
        current
    } else {
        "완료되었어요. 미리보기에서 결과를 확인하세요."@
    }
}

/// The status line to show once a batch job has finished.
pub fn finished_status(current: &str) -> (r: String)
    ensures
        r@ == finished_status_spec(current@),
{
    if has_prefix(current, "취") || has_prefix(current, "모델 로드 실패") {
        proof {
            reveal_strlit("취");
        }
        String::from_str(current)
    } else {
        proof {
            reveal_strlit("취");
        }
        String::from_str("완료되었어요. 미리보기에서 결과를 확인하세요.")
    }
}

/// The status line during a model download: bytes received so far, and the
/// total when the server announced it.
pub open spec fn download_status_spec(done: nat, total: Option<nat>) -> Seq<char> {
    match total {
        Some(t) => "다운로드 중… "@ + human_bytes_spec(done) + " / "@ + human_bytes_spec(t),
        None => "다운로드 중… "@ + human_bytes_spec(done),
    }
}

/// The status line to show during a model download.
pub fn download_status(done: u64, total: Option<u64>) -> (r: String)
    ensures
        r@ == download_status_spec(
            done as nat,
            match total {
                Some(t) => Some(t as nat),
                None => None,
            },
        ),
{
    let mut s = String::from_str("다운로드 중… ");
    let d = human_bytes(done);
    s.append(d.as_str());
    match total {
        Some(t) => {
            let tt = human_bytes(t);
            s.append(" / ");
            s.append(tt.as_str());
        },
        None => {},
    }
    s
}

/// The status line while a batch job works on file `done` of `total`, named
/// `name`: `처리 중 (done/total): name` when upscaling, `변환 중 (...)` when
/// tracing.
pub open spec fn progress_line_spec(kind: JobKind, done: nat, total: nat, name: Seq<char>) -> Seq<char> {
    let verb = match kind {
        JobKind::Upscale => "처리 중 ("@,
        JobKind::Vectorize => "변환 중 ("@,
    };
    verb + decimal(done) + "/"@ + decimal(total) + "): "@ + name
}

/// The status line while a batch job works on one of its files.
pub fn progress_line(kind: JobKind, done: u64, total: u64, name: &str) -> (r: String)
    ensures
        r@ == progress_line_spec(kind, done as nat, total as nat, name@),
{
    let mut s = match kind {
        JobKind::Upscale => String::from_str("처리 중 ("),
        JobKind::Vectorize => String::from_str("변환 중 ("),
    };
    write_decimal(&mut s, done);
    s.append("/");
    write_decimal(&mut s, total);
    s.append("): ");
    s.append(name);
    s
}

} // verus!
