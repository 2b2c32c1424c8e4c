use streamyard_stitcher::composer::{concat_cmd, final_mux_cmd, video_codec, video_window_cmd};
use streamyard_stitcher::model::Participant;
use streamyard_stitcher::plan::{
    all_commands, audio_tracks, commands_text, concat_list, end_time, Outputs,
};
use streamyard_stitcher::windows::Window;

fn secs(s: f64) -> i64 {
    (s * 1e9).round() as i64
}

fn part(id: &str, off: f64) -> Participant {
    Participant {
        id: id.to_string(),
        name: id.to_string(),
        source: "webcam".to_string(),
        file: format!("/{id}.mp4"),
        duration: secs(9999.0),
        offset_ns: Some(secs(off)),
        drift: None,
        confidence: None,
    }
}

fn strings(v: &[&str]) -> Vec<String> {
    v.iter().map(|s| s.to_string()).collect()
}

#[test]
fn video_window_t_is_an_output_option() {
    let ps = vec![part("a", 0.5)];
    let w = Window {
        start: secs(100.0),
        end: secs(130.0),
        tiles: vec![(0, (10, 20, 320, 180))],
    };
    let cmd = video_window_cmd(
        "cloud.mp4",
        &ps,
        &w,
        Some("mask.png"),
        "clip.mp4",
        "linux",
        false,
    );
    // As an *input* option, `-t` would be defeated by the `-loop 1` mask input and the
    // whole master would get encoded instead of the window.
    let last_i = cmd.iter().rposition(|a| a == "-i").unwrap();
    let t = cmd.iter().position(|a| a == "-t").unwrap();
    assert!(t > last_i, "-t must come after every input: {cmd:?}");
    assert!(cmd.iter().any(|a| a == "30.000"), "duration: {cmd:?}");
    assert!(
        cmd.iter().any(|a| a == "99.500"),
        "local seek 100-0.5: {cmd:?}"
    );
    assert!(cmd.iter().any(|a| a == "-an"));
    let g = cmd.iter().find(|a| a.starts_with("[0:v]")).unwrap();
    assert!(g.contains("overlay=x=10:y=20"), "{g}");

    let cmd2 = video_window_cmd("cloud.mp4", &ps, &w, None, "clip.mp4", "linux", false);
    assert!(
        !cmd2.iter().any(|a| a == "-loop"),
        "no mask input without an overlay"
    );
}

#[test]
fn window_command_is_exact() {
    let ps = vec![part("a", 0.5)];
    let w = Window {
        start: secs(100.0),
        end: secs(130.0),
        tiles: vec![(0, (10, 20, 320, 180))],
    };
    let cmd = video_window_cmd(
        "cloud.mp4",
        &ps,
        &w,
        Some("mask.png"),
        "clip.mp4",
        "macos",
        true,
    );
    let graph = "[0:v]format=yuv420p,setsar=1[b0];[1:v]scale=320:180:\
force_original_aspect_ratio=increase,crop=320:180,setsar=1[t0];[b0][t0]overlay=x=10:y=20[b1];\
[b1][2:v]overlay=x=0:y=0[outv];";
    assert_eq!(
        cmd,
        strings(&[
            "ffmpeg",
            "-y",
            "-ss",
            "100.000",
            "-i",
            "cloud.mp4",
            "-ss",
            "99.500",
            "-i",
            "/a.mp4",
            "-loop",
            "1",
            "-framerate",
            "30",
            "-i",
            "mask.png",
            "-filter_complex",
            graph,
            "-map",
            "[outv]",
            "-an",
            "-t",
            "30.000",
            "-c:v",
            "h264_videotoolbox",
            "-b:v",
            "12M",
            "clip.mp4",
        ])
    );
}

#[test]
fn window_before_a_feed_begins_enters_it_at_zero() {
    let ps = vec![part("a", 50.0)];
    let w = Window {
        start: secs(10.0),
        end: secs(20.0),
        tiles: vec![(0, (0, 0, 2, 2))],
    };
    let cmd = video_window_cmd("c.mp4", &ps, &w, None, "o.mp4", "linux", false);
    assert_eq!(cmd[6..8], strings(&["-ss", "0.000"])[..]);
    let m = cmd.iter().position(|a| a == "-map").unwrap();
    assert_eq!(cmd[m + 1], "[b1]");
}

#[test]
fn codecs_by_platform() {
    assert_eq!(
        video_codec("linux", false),
        (
            "libx264".to_string(),
            strings(&["-preset", "medium", "-crf", "20", "-pix_fmt", "yuv420p"])
        )
    );
    assert_eq!(
        video_codec("linux", true),
        (
            "h264_nvenc".to_string(),
            strings(&["-preset", "p5", "-cq", "23"])
        )
    );
    assert_eq!(
        video_codec("macos", true),
        ("h264_videotoolbox".to_string(), strings(&["-b:v", "12M"]))
    );
    assert_eq!(
        video_codec("windows", true),
        (
            "libx264".to_string(),
            strings(&["-preset", "medium", "-crf", "20"])
        )
    );
}

#[test]
fn final_mux_always_caps_duration() {
    let ps = vec![part("a", 0.5), part("b", 2.25)];
    // Without `-t`, the padded (infinite) audio would make the mux encode silence forever.
    let cmd = final_mux_cmd("v.mp4", &ps, &[0, 1], "out.mp4", secs(3946.22));
    let t = cmd
        .iter()
        .position(|a| a == "-t")
        .expect("missing -t: infinite mux");
    assert_eq!(cmd[t + 1], "3946.220");
    assert!(cmd.iter().any(|a| a.contains("adelay=500")));
    assert!(cmd.iter().any(|a| a.contains("adelay=2250")));
    assert!(cmd.iter().any(|a| a.contains("amix=inputs=2")));
    assert!(!cmd.iter().any(|a| a == "-an"), "the mux keeps audio");
}

#[test]
fn concat_is_a_stream_copy() {
    let cmd = concat_cmd("list.txt", "v.mp4");
    assert!(cmd.iter().any(|a| a == "list.txt"));
    let c = cmd.iter().position(|a| a == "-c").unwrap();
    assert_eq!(cmd[c + 1], "copy");
}

#[test]
fn all_commands_of_a_run_in_order() {
    let mut ps = vec![part("a", 0.5), part("b", 1.0), part("c", 0.0)];
    ps[1].file = String::new();
    let windows = vec![Window {
        start: 0,
        end: secs(4.0),
        tiles: vec![],
    }];
    let outputs = Outputs {
        clips: strings(&["clip_0.mp4"]),
        list: "concat.txt".to_string(),
        video: "video_only.mp4".to_string(),
        master: "out.mp4".to_string(),
    };
    assert_eq!(audio_tracks(&ps), vec![0, 2]);
    let cmds = all_commands(
        "c.mp4",
        &ps,
        &windows,
        None,
        &outputs,
        secs(4.0),
        "linux",
        false,
    );
    assert_eq!(cmds.len(), 3);
    assert_eq!(
        cmds[0],
        video_window_cmd("c.mp4", &ps, &windows[0], None, "clip_0.mp4", "linux", false)
    );
    assert_eq!(cmds[1], concat_cmd("concat.txt", "video_only.mp4"));
    assert_eq!(
        cmds[2],
        final_mux_cmd("video_only.mp4", &ps, &[0, 2], "out.mp4", secs(4.0))
    );
}

#[test]
fn texts_of_a_run() {
    assert_eq!(
        concat_list(&strings(&["/t/clip_0.mp4", "/t/clip_1.mp4"])),
        "file '/t/clip_0.mp4'\nfile '/t/clip_1.mp4'"
    );
    assert_eq!(concat_list(&[]), "");
    assert_eq!(
        commands_text(&[strings(&["ffmpeg", "-y"]), strings(&["x"])]),
        "ffmpeg -y\n\nx"
    );
}

#[test]
fn limit_caps_the_end() {
    assert_eq!(end_time(Some(400), secs(3946.22)), secs(400.0));
    assert_eq!(end_time(Some(4000), secs(3946.22)), secs(3946.22));
    assert_eq!(end_time(Some(u64::MAX), secs(10.0)), secs(10.0));
    assert_eq!(end_time(None, secs(10.0)), secs(10.0));
}
