use image_upscaler::status::{
    download_status, finished_status, missing_hint, path_hint, progress_line, start_warning, JobKind,
};
use image_upscaler::vectorize::{svg_file_name, svg_output_path, CurveMode, VecColorMode};
use std::path::PathBuf;

#[test]
fn path_hint_shortens_long_paths() {
    assert_eq!(path_hint(None), "(미선택)");
    assert_eq!(path_hint(Some("/out")), "/out");
    let exact = "/a/".to_string() + &"b".repeat(35);
    assert_eq!(exact.len(), 38);
    assert_eq!(path_hint(Some(&exact)), exact);
    let long = "/very/long/output/directory/for/upscaled/images";
    let hint = path_hint(Some(long));
    assert_eq!(hint, format!("…{}", &long[long.len() - 37..]));
    assert!(hint.starts_with('…'));
    assert_eq!(hint.len(), "…".len() + 37);
}

#[test]
fn path_hint_keeps_multibyte_tail_on_boundaries() {
    let long = "/사진/".to_string() + &"x".repeat(40);
    let hint = path_hint(Some(&long));
    assert_eq!(hint, format!("…{}", &long[long.len() - 37..]));
}

#[test]
fn missing_hint_lists_what_is_missing() {
    assert_eq!(missing_hint(true, true, true), "시작하려면 이미지 · 출력 폴더 · 모델 을(를) 지정하세요.");
    assert_eq!(missing_hint(false, true, false), "시작하려면 출력 폴더 을(를) 지정하세요.");
    assert_eq!(missing_hint(true, false, true), "시작하려면 이미지 · 모델 을(를) 지정하세요.");
    assert_eq!(missing_hint(false, false, false), "시작하려면  을(를) 지정하세요.");
}

#[test]
fn svg_names_use_stem_and_suffix() {
    assert_eq!(
        PathBuf::from(svg_output_path("/in/logo.png", "/out", "_vec")),
        PathBuf::from("/out/logo_vec.svg")
    );
    assert_eq!(PathBuf::from(svg_output_path("/", "out", "")), PathBuf::from("out/image.svg"));
    assert_eq!(svg_file_name(Some("a.b"), "-x"), "a.b-x.svg");
}

#[test]
fn mode_labels() {
    assert_eq!(VecColorMode::Color.label(), "컬러");
    assert_eq!(VecColorMode::Binary.label(), "흑백");
    assert_eq!(CurveMode::Pixel.label(), "픽셀 (각짐)");
    assert_eq!(CurveMode::Polygon.label(), "다각형");
    assert_eq!(CurveMode::Spline.label(), "곡선 (부드러움)");
}

#[test]
fn start_warnings_come_in_order() {
    assert_eq!(start_warning(JobKind::Upscale, false, false, false), Some("⚠ 출력 폴더를 선택하세요."));
    assert_eq!(start_warning(JobKind::Upscale, true, false, false), Some("⚠ ONNX 모델 파일을 선택하세요."));
    assert_eq!(start_warning(JobKind::Upscale, true, true, false), Some("⚠ 업스케일할 이미지를 선택하세요."));
    assert_eq!(start_warning(JobKind::Upscale, true, true, true), None);
    assert_eq!(start_warning(JobKind::Vectorize, true, false, false), Some("⚠ 변환할 이미지를 선택하세요."));
    assert_eq!(start_warning(JobKind::Vectorize, true, false, true), None);
    assert_eq!(start_warning(JobKind::Vectorize, false, true, true), Some("⚠ 출력 폴더를 선택하세요."));
}

#[test]
fn finished_status_keeps_cancellation_and_load_failure() {
    assert_eq!(finished_status("취소되었습니다."), "취소되었습니다.");
    assert_eq!(finished_status("모델 로드 실패: bad file"), "모델 로드 실패: bad file");
    assert_eq!(finished_status("처리 중 (2/2): a.png"), "완료되었어요. 미리보기에서 결과를 확인하세요.");
    assert_eq!(finished_status(""), "완료되었어요. 미리보기에서 결과를 확인하세요.");
    assert_eq!(finished_status("모델"), "완료되었어요. 미리보기에서 결과를 확인하세요.");
}

#[test]
fn download_status_shows_bytes() {
    assert_eq!(download_status(2048, Some(64 * 1024 * 1024)), "다운로드 중… 2 KB / 64.0 MB");
    assert_eq!(download_status(512, None), "다운로드 중… 512 B");
}

#[test]
fn progress_lines_name_the_file() {
    assert_eq!(progress_line(JobKind::Upscale, 2, 10, "cat.png"), "처리 중 (2/10): cat.png");
    assert_eq!(progress_line(JobKind::Vectorize, 1, 1, "logo.png"), "변환 중 (1/1): logo.png");
}
