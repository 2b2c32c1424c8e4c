//! The whole run: which tracks are mixed, how long the output is, and all the commands.
use vstd::prelude::*;

use crate::clock::seconds_text;
use crate::composer::{
    concat_cmd, concat_command, final_mux_cmd, mux_command, overlay_view, tiles_known,
    tracks_known, video_window_cmd, window_command,
};
use crate::model::Participant;
use crate::text::{join, joined, views};
use crate::windows::Window;

verus! {

/// The first `n` positions' tracks that have a file.
pub open spec fn tracks_of(ps: Seq<Participant>, n: int) -> Seq<usize>
    decreases n,
{
    if n <= 0 {
        Seq::empty()
    } else if ps[n - 1].file@.len() > 0 {
        tracks_of(ps, n - 1).push((n - 1) as usize)
    } else {
        tracks_of(ps, n - 1)
    }
}

/// The participants whose audio is mixed: all that have a file, in order.
pub fn audio_tracks(participants: &[Participant]) -> (r: Vec<usize>)
    ensures
        r@ == tracks_of(participants@, participants@.len() as int),
        tracks_known(r@, participants@),
{
    let mut out: Vec<usize> = Vec::new();
    let mut i: usize = 0;
    while i < participants.len()
        invariant
            i <= participants@.len(),
            out@ == tracks_of(participants@, i as int),
            forall|k: int| 0 <= k < out@.len() ==> #[trigger] out@[k] < i,
        decreases participants@.len() - i,
    {
        if !participants[i].file.as_str().is_empty() {
            out.push(i);
        }
        i = i + 1;
    }
    out
}

/// How long the output is: the cloud's duration, or the limit in seconds if that is less.
pub fn end_time(limit: Option<u64>, duration: i64) -> (r: i64)
    ensures
        r == match limit {
            Some(l) => if l * 1_000_000_000 < duration {
                l * 1_000_000_000
            } else {
                duration as int
            },
            None => duration as int,
        },
{
    match limit {
        Some(l) => {
            let cap: i128 = l as i128 * 1_000_000_000;
            if cap < duration as i128 {
                cap as i64
            } else {
                duration
            }
        },
        None => duration,
    }
}

pub open spec fn command_views(v: Seq<Vec<String>>) -> Seq<Seq<Seq<char>>> {
    v.map_values(|c: Vec<String>| views(c@))
}

/// The commands that render the first `n` windows.
pub open spec fn window_commands(
    cloud: Seq<char>,
    ps: Seq<Participant>,
    windows: Seq<Window>,
    overlay: Option<Seq<char>>,
    clips: Seq<String>,
    os: Seq<char>,
    gpu: bool,
) -> Seq<Seq<Seq<char>>> {
    Seq::new(
        windows.len(),
        |i: int| window_command(cloud, ps, windows[i], overlay, clips[i]@, os, gpu),
    )
}

/// The files that a run writes.
pub struct Outputs {
    /// One clip per window.
    pub clips: Vec<String>,
    /// The list of the clips.
    pub list: String,
    /// The joined clips.
    pub video: String,
    /// The finished master.
    pub master: String,
}

/// All commands of a run, in order: one per window, then the one that joins the clips,
/// then the one that adds the audio.
pub fn all_commands(
    cloud: &str,
    participants: &[Participant],
    windows: &[Window],
    overlay: Option<&str>,
    outputs: &Outputs,
    end: i64,
    os: &str,
    gpu: bool,
) -> (r: Vec<Vec<String>>)
    requires
        outputs.clips@.len() == windows@.len(),
        forall|i: int|
            0 <= i < windows@.len() ==> tiles_known(#[trigger] windows@[i], participants@),
    ensures
        command_views(r@) == window_commands(
            cloud@,
            participants@,
            windows@,
            overlay_view(overlay),
            outputs.clips@,
            os@,
            gpu,
        ) + seq![
            concat_command(outputs.list@, outputs.video@),
            mux_command(
                outputs.video@,
                participants@,
                tracks_of(participants@, participants@.len() as int),
                outputs.master@,
                end as int,
            ),
        ],
{
    let ghost all = window_commands(
        cloud@,
        participants@,
        windows@,
        overlay_view(overlay),
        outputs.clips@,
        os@,
        gpu,
    );
    let mut cmds: Vec<Vec<String>> = Vec::new();
    let mut i: usize = 0;
    while i < windows.len()
        invariant
            i <= windows@.len(),
            outputs.clips@.len() == windows@.len(),
            forall|i: int|
                0 <= i < windows@.len() ==> tiles_known(#[trigger] windows@[i], participants@),
            all == window_commands(
                cloud@,
                participants@,
                windows@,
                overlay_view(overlay),
                outputs.clips@,
                os@,
                gpu,
            ),
            command_views(cmds@) == all.take(i as int),
        decreases windows@.len() - i,
    {
        let ghost before = cmds@;
        let c = video_window_cmd(
            cloud,
            participants,
            &windows[i],
            overlay,
            outputs.clips[i].as_str(),
            os,
            gpu,
        );
        cmds.push(c);
        assert(command_views(cmds@) =~= command_views(before).push(views(c@)));
        assert(all.take(i + 1) =~= all.take(i as int).push(all[i as int]));
        i = i + 1;
    }
    let tracks = audio_tracks(participants);
    let ghost before = cmds@;
    let c = concat_cmd(outputs.list.as_str(), outputs.video.as_str());
    let m = final_mux_cmd(
        outputs.video.as_str(),
        participants,
        tracks.as_slice(),
        outputs.master.as_str(),
        end,
    );
    cmds.push(c);
    cmds.push(m);
    assert(all.take(i as int) =~= all);
    assert(command_views(cmds@) =~= all + seq![views(c@), views(m@)]);
    cmds
}

/// The lines `file '<path>'` of a clip list.
pub open spec fn list_lines(clips: Seq<String>) -> Seq<Seq<char>> {
    Seq::new(clips.len(), |i: int| "file '"@ + clips[i]@ + "'"@)
}

/// The text of the list that the clips are joined from: one line per clip.
pub fn concat_list(clips: &[String]) -> (r: String)
    ensures
        r@ == joined(list_lines(clips@), "\n"@),
{
    let mut lines: Vec<String> = Vec::new();
    let mut i: usize = 0;
    while i < clips.len()
        invariant
            i <= clips@.len(),
            views(lines@) == list_lines(clips@).take(i as int),
        decreases clips@.len() - i,
    {
        let ghost before = lines@;
        let mut line = String::new();
        line.append("file '");
        line.append(clips[i].as_str());
        line.append("'");
        assert(line@ =~= list_lines(clips@)[i as int]);
        lines.push(line);
        assert(views(lines@) =~= views(before).push(line@));
        assert(list_lines(clips@).take(i + 1) =~= list_lines(clips@).take(i as int).push(
            list_lines(clips@)[i as int],
        ));
        i = i + 1;
    }
    assert(list_lines(clips@).take(i as int) =~= list_lines(clips@));
    join(lines.as_slice(), "\n")
}

/// Each command as one line.
pub open spec fn command_lines(cmds: Seq<Vec<String>>) -> Seq<Seq<char>> {
    Seq::new(cmds.len(), |i: int| joined(views(cmds[i]@), " "@))
}

/// All commands as text, with an empty line between each two.
pub fn commands_text(cmds: &[Vec<String>]) -> (r: String)
    ensures
        r@ == joined(command_lines(cmds@), "\n\n"@),
{
    let mut lines: Vec<String> = Vec::new();
    let mut i: usize = 0;
    while i < cmds.len()
        invariant
            i <= cmds@.len(),
            views(lines@) == command_lines(cmds@).take(i as int),
        decreases cmds@.len() - i,
    {
        let ghost before = lines@;
        let line = join(cmds[i].as_slice(), " ");
        lines.push(line);
        assert(views(lines@) =~= views(before).push(line@));
        assert(command_lines(cmds@).take(i + 1) =~= command_lines(cmds@).take(i as int).push(
            command_lines(cmds@)[i as int],
        ));
        i = i + 1;
    }
    assert(command_lines(cmds@).take(i as int) =~= command_lines(cmds@));
    join(lines.as_slice(), "\n\n")
}

proof fn lemma_tracks(ps: Seq<Participant>, n: int)
    requires
        0 <= n <= ps.len() <= usize::MAX,
    ensures
        forall|k: int|
            0 <= k < tracks_of(ps, n).len() ==> #[trigger] tracks_of(ps, n)[k] < n
                && ps[tracks_of(ps, n)[k] as int].file@.len() > 0,
        forall|i: int|
            0 <= i < n && (#[trigger] ps[i]).file@.len() > 0 ==> tracks_of(ps, n).contains(
                i as usize,
            ),
        forall|j: int, k: int|
            0 <= j < k < tracks_of(ps, n).len() ==> #[trigger] tracks_of(ps, n)[j]
                < #[trigger] tracks_of(ps, n)[k],
    decreases n,
{
    if n > 0 {
        lemma_tracks(ps, n - 1);
        let (before, all) = (tracks_of(ps, n - 1), tracks_of(ps, n));
        assert forall|i: int| 0 <= i < n && (#[trigger] ps[i]).file@.len() > 0 implies all.contains(
            i as usize,
        ) by {
            if i < n - 1 {
                let k = choose|k: int| 0 <= k < before.len() && before[k] == i as usize;
                assert(all[k] == i as usize);
            } else {
                assert(all[all.len() - 1] == i as usize);
            }
        }
        assert forall|j: int, k: int| 0 <= j < k < all.len() implies #[trigger] all[j]
            < #[trigger] all[k] by {
            assert(all[j] == before[j]);
            if k < before.len() {
                assert(all[k] == before[k]);
            }
        }
    }
}

/// The audio of exactly those participants is mixed that have a file, each once and in order.
pub proof fn law_tracks_are_those_with_a_file(ps: Seq<Participant>)
    requires
        ps.len() <= usize::MAX,
    ensures
        ({
            let t = tracks_of(ps, ps.len() as int);
            &&& forall|i: int|
                0 <= i < ps.len() ==> ((#[trigger] ps[i]).file@.len() > 0 <==> t.contains(
                    i as usize,
                ))
            &&& forall|k: int| 0 <= k < t.len() ==> #[trigger] t[k] < ps.len()
            &&& forall|j: int, k: int| 0 <= j < k < t.len() ==> #[trigger] t[j] < #[trigger] t[k]
        }),
{
    lemma_tracks(ps, ps.len() as int);
    let t = tracks_of(ps, ps.len() as int);
    assert forall|i: int| 0 <= i < ps.len() && t.contains(i as usize) implies (
    #[trigger] ps[i]).file@.len() > 0 by {
        let k = choose|k: int| 0 <= k < t.len() && t[k] == i as usize;
        assert(ps[t[k] as int].file@.len() > 0);
    }
}

/// Each window has the command that renders it into its own clip.
pub proof fn law_each_window_has_its_clip(
    cloud: Seq<char>,
    ps: Seq<Participant>,
    windows: Seq<Window>,
    overlay: Option<Seq<char>>,
    clips: Seq<String>,
    os: Seq<char>,
    gpu: bool,
    i: int,
)
    requires
        0 <= i < windows.len(),
    ensures
        ({
            let all = window_commands(cloud, ps, windows, overlay, clips, os, gpu);
            &&& all.len() == windows.len()
            &&& all[i] == window_command(cloud, ps, windows[i], overlay, clips[i]@, os, gpu)
            &&& all[i].last() == clips[i]@
        }),
{
}

/// The list names each clip on a line of its own, in quotes, and a command is written with
/// blanks between its arguments.
pub proof fn law_lines(clips: Seq<String>, cmds: Seq<Vec<String>>, i: int)
    ensures
        list_lines(clips).len() == clips.len(),
        command_lines(cmds).len() == cmds.len(),
        0 <= i < clips.len() ==> list_lines(clips)[i] == "file '"@ + clips[i]@ + "'"@,
        0 <= i < cmds.len() ==> command_lines(cmds)[i] == joined(views(cmds[i]@), " "@),
{
}

/// The output is as long as the cloud, or as the limit in seconds if that is shorter: it is
/// never longer than either.
pub proof fn law_end_time(limit: Option<u64>, duration: i64, r: i64)
    requires
        call_ensures(end_time, (limit, duration), r),
    ensures
        r <= duration,
        limit is None ==> r == duration,
        limit matches Some(l) ==> r <= l * 1_000_000_000 && (r == duration || r == l
            * 1_000_000_000),
{
}

/// The commands of a run follow one another: each window's command writes the window's clip,
/// the next one reads the list of the clips and writes the joined video, and the last one
/// reads that video and writes the master, cut off at the end of the output.
pub proof fn law_commands_follow_one_another(
    cloud: &str,
    participants: &[Participant],
    windows: &[Window],
    overlay: Option<&str>,
    outputs: &Outputs,
    end: i64,
    os: &str,
    gpu: bool,
    r: Vec<Vec<String>>,
)
    requires
        call_ensures(
            all_commands,
            (cloud, participants, windows, overlay, outputs, end, os, gpu),
            r,
        ),
        outputs.clips@.len() == windows@.len(),
    ensures
        ({
            let n = windows@.len() as int;
            let all = command_views(r@);
            &&& r@.len() == n + 2
            &&& forall|i: int| 0 <= i < n ==> (#[trigger] all[i]).last() == outputs.clips@[i]@
            &&& all[n][6] == "-i"@ && all[n][7] == outputs.list@ && all[n].last() == outputs.video@
            &&& all[n + 1][2] == "-i"@ && all[n + 1][3] == outputs.video@
            &&& all[n + 1].last() == outputs.master@
            &&& all[n + 1][all[n + 1].len() - 3] == "-t"@ && all[n + 1][all[n + 1].len() - 2]
                == seconds_text(end as int)
        }),
{
    let n = windows@.len() as int;
    let all = command_views(r@);
    let rendered = window_commands(
        cloud@,
        participants@,
        windows@,
        overlay_view(overlay),
        outputs.clips@,
        os@,
        gpu,
    );
    assert forall|i: int| 0 <= i < n implies (#[trigger] all[i]).last() == outputs.clips@[i]@ by {
        assert(all[i] == rendered[i]);
    }
    assert(all[n] == concat_command(outputs.list@, outputs.video@));
    assert(all.len() == n + 2);
}

} // verus!
