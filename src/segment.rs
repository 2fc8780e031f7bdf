use vstd::prelude::*;
use vstd::string::*;

verus! {

/// The character of a decimal digit.
pub open spec fn digit_char(d: int) -> char {
    seq!['0', '1', '2', '3', '4', '5', '6', '7', '8', '9'][d]
}

/// The decimal digits of `n`, most significant first, without leading zeros.
pub open spec fn decimal(n: nat) -> Seq<char>
    decreases n,
{
    if n < 10 {
        seq![digit_char(n as int)]
    } else {
        decimal(n / 10) + seq![digit_char((n % 10) as int)]
    }
}

/// `n` written in decimal.
pub fn decimal_string(n: u64) -> (r: String)
    ensures
        r@ == decimal(n as nat),
    decreases n,
{
    let digits = "0123456789";
    proof {
        reveal_strlit("0123456789");
    }
    let d: usize = (n % 10) as usize;
    let one = digits.substring_char(d, d + 1);
    proof {
        assert(one@ =~= seq![digit_char(d as int)]);
    }
    if n < 10 {
        String::from_str(one)
    } else {
        let mut r = decimal_string(n / 10);
        r.append(one);
        r
    }
}

/// The encoder that a render encoding names, or `None` for an unknown one.
pub open spec fn encoder_of(encode: Seq<char>) -> Option<Seq<char>> {
    if encode == "H264"@ {
        Some("libx264"@)
    } else if encode == "H265"@ {
        Some("libx265"@)
    } else {
        None
    }
}

/// Arguments that make ffmpeg read PNG frames from its standard input and
/// encode them into `output`.
pub open spec fn encoder_args(
    output: Seq<char>,
    width: u32,
    height: u32,
    fps: Seq<char>,
    crf: u32,
    vcodec: Seq<char>,
    preset: Seq<char>,
    gop: Option<u32>,
) -> Seq<Seq<char>> {
    let head = seq![
        "-y"@,
        "-hide_banner"@,
        "-loglevel"@,
        "error"@,
        "-f"@,
        "image2pipe"@,
        "-vcodec"@,
        "png"@,
        "-framerate"@,
        fps,
        "-s"@,
        decimal(width as nat) + "x"@ + decimal(height as nat),
        "-i"@,
        "pipe:0"@,
        "-r"@,
        fps,
        "-c:v"@,
        vcodec,
        "-preset"@,
        preset,
        "-crf"@,
        decimal(crf as nat),
        "-pix_fmt"@,
        "yuv420p"@,
        "-movflags"@,
        "+faststart"@,
    ];
    let keyframes = match gop {
        Some(g) => seq![
            "-g"@,
            decimal(g as nat),
            "-keyint_min"@,
            decimal(g as nat),
            "-sc_threshold"@,
            "0"@,
        ],
        None => Seq::empty(),
    };
    head + keyframes + seq![output]
}

/// The views of a list of strings.
pub open spec fn string_views(v: Seq<String>) -> Seq<Seq<char>> {
    v.map_values(|s: String| s@)
}

fn push_str(args: &mut Vec<String>, s: &str)
    ensures
        string_views(final(args)@) == string_views(old(args)@).push(s@),
{
    args.push(String::from_str(s));
    proof {
        assert(string_views(args@) =~= string_views(old(args)@).push(s@));
    }
}

/// The command line of the ffmpeg process that encodes one render segment:
/// `encode` names the codec (`H264` or `H265`), `preset` defaults to
/// `medium`, and a `gop` fixes the keyframe interval.
pub fn segment_encoder_args(
    output_path: &str,
    width: u32,
    height: u32,
    fps_text: &str,
    crf: u32,
    encode: &str,
    preset: Option<&str>,
    gop: Option<u32>,
) -> (r: Result<Vec<String>, String>)
    ensures
        match r {
            Ok(args) => {
                &&& encoder_of(encode@) is Some
                &&& string_views(args@) == encoder_args(
                    output_path@,
                    width,
                    height,
                    fps_text@,
                    crf,
                    encoder_of(encode@)->0,
                    match preset {
                        Some(p) => p@,
                        None => "medium"@,
                    },
                    gop,
                )
            },
            Err(e) => encoder_of(encode@) is None && e@ == "Unsupported encode: "@ + encode@,
        },
{
    let enc = String::from_str(encode);
    let vcodec: &str;
    if enc == String::from_str("H264") {
        vcodec = "libx264";
    } else if enc == String::from_str("H265") {
        vcodec = "libx265";
    } else {
        let mut e = String::from_str("Unsupported encode: ");
        e.append(encode);
        return Err(e);
    }
    let preset_text: &str = match preset {
        Some(p) => p,
        None => "medium",
    };
    let mut args: Vec<String> = Vec::new();
    push_str(&mut args, "-y");
    push_str(&mut args, "-hide_banner");
    push_str(&mut args, "-loglevel");
    push_str(&mut args, "error");
    push_str(&mut args, "-f");
    push_str(&mut args, "image2pipe");
    push_str(&mut args, "-vcodec");
    push_str(&mut args, "png");
    push_str(&mut args, "-framerate");
    push_str(&mut args, fps_text);
    push_str(&mut args, "-s");
    let mut size = decimal_string(width as u64);
    size.append("x");
    let hs = decimal_string(height as u64);
    size.append(hs.as_str());
    push_str(&mut args, size.as_str());
    push_str(&mut args, "-i");
    push_str(&mut args, "pipe:0");
    push_str(&mut args, "-r");
    push_str(&mut args, fps_text);
    push_str(&mut args, "-c:v");
    push_str(&mut args, vcodec);
    push_str(&mut args, "-preset");
    push_str(&mut args, preset_text);
    push_str(&mut args, "-crf");
    let crf_text = decimal_string(crf as u64);
    push_str(&mut args, crf_text.as_str());
    push_str(&mut args, "-pix_fmt");
    push_str(&mut args, "yuv420p");
    push_str(&mut args, "-movflags");
    push_str(&mut args, "+faststart");
    match gop {
        Some(g) => {
            let g_text = decimal_string(g as u64);
            push_str(&mut args, "-g");
            push_str(&mut args, g_text.as_str());
            push_str(&mut args, "-keyint_min");
            push_str(&mut args, g_text.as_str());
            push_str(&mut args, "-sc_threshold");
            push_str(&mut args, "0");
        },
        None => {},
    }
    push_str(&mut args, output_path);
    proof {
        assert(string_views(args@) =~= encoder_args(
            output_path@,
            width,
            height,
            fps_text@,
            crf,
            vcodec@,
            preset_text@,
            gop,
        ));
    }
    Ok(args)
}

/// Frames per render worker: the frame count over one less than the number
/// of workers (over one, for a single worker).
pub open spec fn render_chunk(total_frames: int, workers: int) -> int {
    total_frames / (if workers - 1 >= 1 { workers - 1 } else { 1 })
}

/// The frames that render worker `id` draws, from its first up to, not
/// including, its last.
pub open spec fn render_range(total_frames: int, workers: int, id: int) -> (int, int) {
    let chunk = render_chunk(total_frames, workers);
    let start = id * chunk;
    let end = if (id + 1) * chunk < total_frames { (id + 1) * chunk } else { total_frames };
    (start, end)
}

/// The frame ranges of `workers` render workers sharing `total_frames`.
pub fn render_frame_ranges(total_frames: usize, workers: usize) -> (r: Vec<(usize, usize)>)
    ensures
        r@.len() == workers,
        forall|id: int| 0 <= id < workers ==> (r@[id].0 as int, r@[id].1 as int) == render_range(
            total_frames as int,
            workers as int,
            id,
        ),
{
    let chunk: usize = total_frames / (if workers > 1 { workers - 1 } else { 1 });
    let ghost t = total_frames as int;
    let ghost w = workers as int;
    let mut r: Vec<(usize, usize)> = Vec::new();
    let mut id: usize = 0;
    while id < workers
        invariant
            chunk == render_chunk(t, w),
            t == total_frames,
            w == workers,
            id <= workers,
            r@.len() == id,
            forall|j: int| 0 <= j < id ==> (r@[j].0 as int, r@[j].1 as int) == render_range(t, w, j),
        decreases workers - id,
    {
        proof {
            let d = if w - 1 >= 1 { w - 1 } else { 1 };
            vstd::arithmetic::div_mod::lemma_fundamental_div_mod(t, d);
            assert(id * chunk <= t) by (nonlinear_arith)
                requires
                    0 <= id < w,
                    1 <= d,
                    (w <= 1 ==> id == 0),
                    (w > 1 ==> d == w - 1),
                    chunk * d <= t,
                    chunk >= 0,
            ;
            assert((id + 1) * chunk == id * chunk + chunk) by (nonlinear_arith);
            vstd::arithmetic::div_mod::lemma_div_pos_is_pos(t, d);
            vstd::arithmetic::div_mod::lemma_div_is_ordered_by_denominator(t, 1, d);
        }
        let start: usize = id * chunk;
        let end: usize = if total_frames - start > chunk { start + chunk } else { total_frames };
        r.push((start, end));
        proof {
            assert forall|j: int| 0 <= j < id + 1 implies (r@[j].0 as int, r@[j].1 as int) == render_range(t, w, j) by {
                if j == id {
                    assert(r@[j] == (start, end));
                }
            }
        }
        id = id + 1;
    }
    r
}

} // verus!
