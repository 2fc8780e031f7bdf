use frame_cache::concat::{concat_list, escape_concat_path};
use frame_cache::segment::{decimal_string, render_frame_ranges, segment_encoder_args};

#[test]
fn escape_quotes() {
    assert_eq!(escape_concat_path("a'b"), "a'\\''b");
    assert_eq!(escape_concat_path("/tmp/seg.mp4"), "/tmp/seg.mp4");
    assert_eq!(escape_concat_path(""), "");
    assert_eq!(escape_concat_path("é'"), "é'\\''");
}

#[test]
fn concat_list_lines() {
    let paths = vec!["/a/s0.mp4".to_string(), "/b/it's.mp4".to_string()];
    assert_eq!(
        concat_list(&paths),
        Ok("file '/a/s0.mp4'\nfile '/b/it'\\''s.mp4'\n".to_string())
    );
}

#[test]
fn concat_list_empty_is_error() {
    assert_eq!(concat_list(&vec![]), Err("No segment files.".to_string()));
}

#[test]
fn decimal_text() {
    assert_eq!(decimal_string(0), "0");
    assert_eq!(decimal_string(600), "600");
    assert_eq!(decimal_string(u64::MAX), u64::MAX.to_string());
}

#[test]
fn encoder_args_h264() {
    let args = segment_encoder_args("out.mp4", 1920, 1080, "30", 18, "H264", Some("fast"), Some(30))
        .unwrap();
    let expected: Vec<&str> = vec![
        "-y", "-hide_banner", "-loglevel", "error", "-f", "image2pipe", "-vcodec", "png",
        "-framerate", "30", "-s", "1920x1080", "-i", "pipe:0", "-r", "30", "-c:v", "libx264",
        "-preset", "fast", "-crf", "18", "-pix_fmt", "yuv420p", "-movflags", "+faststart", "-g",
        "30", "-keyint_min", "30", "-sc_threshold", "0", "out.mp4",
    ];
    assert_eq!(args, expected);
}

#[test]
fn encoder_args_h265_defaults() {
    let args = segment_encoder_args("o.mp4", 2, 2, "29.97", 23, "H265", None, None).unwrap();
    assert_eq!(args[17], "libx265");
    assert_eq!(args[19], "medium");
    assert_eq!(args.len(), 27);
    assert_eq!(args[26], "o.mp4");
}

#[test]
fn encoder_args_unknown_codec() {
    assert_eq!(
        segment_encoder_args("o.mp4", 2, 2, "30", 18, "VP9", None, None),
        Err("Unsupported encode: VP9".to_string())
    );
}

#[test]
fn render_ranges_split() {
    assert_eq!(render_frame_ranges(100, 5), vec![(0, 25), (25, 50), (50, 75), (75, 100), (100, 100)]);
    assert_eq!(render_frame_ranges(10, 1), vec![(0, 10)]);
    assert_eq!(render_frame_ranges(10, 0), vec![]);
}
