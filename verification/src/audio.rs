//! Audio downloads: the order in which voices are tried, file names,
//! lyrics, the `info.list` of an audio folder, and post-processing
//! commands.
use vstd::prelude::*;
use crate::api::{last_error, last_error_of};
use crate::download::json_escaped;
use crate::text::{
    chars_of, decimal, push_all, push_decimal, push_str, replace, replace_chars, string_of,
};
use crate::types::{chapter_file_stem, file_stem, heading, Chapter};

verus! {

/// The lyrics of a chapter: its heading at time zero.
pub open spec fn lrc_text(ch: Chapter) -> Seq<char> {
    "[00:00.00]"@ + heading(ch.index, ch.title@) + "\n"@
}

/// The lyrics of chapter `ch`.
pub fn gen_lrc_text(ch: &Chapter) -> (res: String)
    ensures
        res@ == lrc_text(*ch),
{
    let mut out = chars_of("[00:00.00]");
    push_all(&mut out, &ch.heading());
    push_str(&mut out, "\n");
    string_of(&out)
}

/// The audio file name of chapter `ch`: its file stem and `.mp3`.
pub fn audio_fname(ft: &str, ch: &Chapter) -> (res: String)
    ensures
        res@ == file_stem(ft@, ch.index, ch.title@) + ".mp3"@,
{
    let mut out = chapter_file_stem(ft, ch);
    push_str(&mut out, ".mp3");
    string_of(&out)
}

/// Where lyrics go: a separate `.lrc` file, the MP3's tags, or both.
pub struct LrcOutputs {
    pub external: bool,
    pub embed: bool,
}

/// The lyrics outputs that a mode asks for: `external` a file, `embed`
/// the tags, `both` both; any other mode (`off`) none.
pub fn lrc_outputs(mode: &str) -> (res: LrcOutputs)
    ensures
        res.external == (mode@ == "external"@ || mode@ == "both"@),
        res.embed == (mode@ == "embed"@ || mode@ == "both"@),
{
    let m = chars_of(mode);
    let ext = crate::text::chars_eq_str(&m, "external");
    let emb = crate::text::chars_eq_str(&m, "embed");
    let both = crate::text::chars_eq_str(&m, "both");
    LrcOutputs { external: ext || both, embed: emb || both }
}

/// The voices tried for a chapter, in order: the chosen one, then each
/// fallback that differs from it.
pub open spec fn tone_order(tone: usize, fallbacks: Seq<usize>) -> Seq<usize> {
    seq![tone] + without(fallbacks, tone)
}

/// `v` with every `x` left out.
pub open spec fn without(v: Seq<usize>, x: usize) -> Seq<usize>
    decreases v.len(),
{
    if v.len() == 0 {
        seq![]
    } else if v.last() == x {
        without(v.drop_last(), x)
    } else {
        without(v.drop_last(), x).push(v.last())
    }
}

/// The voices tried for a chapter (see `tone_order`).
pub fn tones_to_try(tone: usize, fallbacks: &Vec<usize>) -> (res: Vec<usize>)
    ensures
        res@ == tone_order(tone, fallbacks@),
{
    let mut out: Vec<usize> = Vec::new();
    out.push(tone);
    let n = fallbacks.len();
    let mut i: usize = 0;
    proof {
        assert(fallbacks@.take(0) =~= Seq::<usize>::empty());
        assert(out@ =~= seq![tone] + without(fallbacks@.take(0), tone));
    }
    while i < n
        invariant
            n == fallbacks@.len(),
            i <= n,
            out@ == seq![tone] + without(fallbacks@.take(i as int), tone),
        decreases n - i,
    {
        let t = fallbacks[i];
        let ghost before = out@;
        proof {
                assert(fallbacks@.take(i + 1).drop_last() =~= fallbacks@.take(i as int));
            assert(fallbacks@.take(i + 1).last() == t);
        }
        if t != tone {
            out.push(t);
            proof {
                assert(out@ =~= seq![tone] + without(fallbacks@.take(i + 1), tone));
            }
        }
        i += 1;
    }
    proof {
        assert(fallbacks@.take(n as int) =~= fallbacks@);
    }
    out
}

/// A post-processing command: the template with `{input}` and then
/// `{output}` replaced by the two paths.
pub open spec fn post_command_text(t: Seq<char>, input: Seq<char>, output: Seq<char>) -> Seq<char> {
    replace(replace(t, "{input}"@, input), "{output}"@, output)
}

/// The post-processing command for the files `input` and `output`.
pub fn post_command(template: &str, input: &str, output: &str) -> (res: String)
    ensures
        res@ == post_command_text(template@, input@, output@),
{
    let p1 = chars_of("{input}");
    let p2 = chars_of("{output}");
    proof {
        reveal_strlit("{input}");
        reveal_strlit("{output}");
    }
    let a = replace_chars(&chars_of(template), &p1, &chars_of(input));
    string_of(&replace_chars(&a, &p2, &chars_of(output)))
}

/// The line that records one chapter in an audio folder's `info.list`;
/// the file name is written as it is.
pub open spec fn audio_entry(ft: Seq<char>, ch: Chapter, last: bool) -> Seq<char> {
    "    {\"idx\":"@ + decimal(ch.index as nat) + ", \"title\":\""@ + json_escaped(ch.title@)
        + "\", \"file\":\""@ + file_stem(ft, ch.index, ch.title@) + ".mp3"@ + "\"}"@ + (if last {
        seq![]
    } else {
        seq![',']
    }) + "\n"@
}

/// The entries of the first `k` chapters of `chs`.
pub open spec fn audio_entries_upto(ft: Seq<char>, chs: Seq<Chapter>, k: int) -> Seq<char>
    decreases k,
{
    if k <= 0 {
        seq![]
    } else {
        audio_entries_upto(ft, chs, k - 1) + audio_entry(ft, chs[k - 1], k == chs.len())
    }
}

/// The text of an audio folder's `info.list`: the book's title (`未知`
/// when unknown), the voice, and the chapters.
pub open spec fn audio_info_list(title: Option<Seq<char>>, tone: usize, ft: Seq<char>, chs: Seq<Chapter>) -> Seq<
    char,
> {
    "{\n  \"book_title\": \""@ + json_escaped(
        match title {
            Some(t) => t,
            None => "未知"@,
        },
    ) + "\",\n  \"tone\": "@ + decimal(tone as nat) + ",\n  \"chapters\": [\n"@
        + audio_entries_upto(ft, chs, chs.len() as int) + "  ]\n}\n"@
}

/// Appends the entry of chapter `ch`.
fn push_audio_entry(out: &mut Vec<char>, ft: &str, ch: &Chapter, last: bool)
    ensures
        final(out)@ == old(out)@ + audio_entry(ft@, *ch, last),
{
    let ghost start = out@;
    push_str(out, "    {\"idx\":");
    push_decimal(out, ch.index as u64);
    push_str(out, ", \"title\":\"");
    push_all(out, &chars_of(crate::download::json_esc(ch.title.as_str()).as_str()));
    push_str(out, "\", \"file\":\"");
    push_all(out, &chapter_file_stem(ft, ch));
    push_str(out, ".mp3");
    push_str(out, "\"}");
    if !last {
        out.push(',');
    }
    push_str(out, "\n");
    proof {
        assert(final(out)@ =~= start + audio_entry(ft@, *ch, last));
    }
}

/// The text of an audio folder's `info.list` (see `audio_info_list`).
pub fn audio_info_list_text(title: Option<&str>, tone: usize, ft: &str, chapters: &Vec<Chapter>) -> (res: String)
    ensures
        res@ == audio_info_list(
            match title {
                Some(t) => Some(t@),
                None => None,
            },
            tone,
            ft@,
            chapters@,
        ),
{
    let t = match title {
        Some(t) => t,
        None => "未知",
    };
    let mut out = chars_of("{\n  \"book_title\": \"");
    let escaped = crate::download::json_esc(t);
    push_all(&mut out, &chars_of(escaped.as_str()));
    push_str(&mut out, "\",\n  \"tone\": ");
    push_decimal(&mut out, tone as u64);
    push_str(&mut out, ",\n  \"chapters\": [\n");
    let ghost head = out@;
    let n = chapters.len();
    let mut i: usize = 0;
    while i < n
        invariant
            n == chapters@.len(),
            i <= n,
            out@ == head + audio_entries_upto(ft@, chapters@, i as int),
        decreases n - i,
    {
        let ghost before = out@;
        push_audio_entry(&mut out, ft, &chapters[i], i + 1 == n);
        proof {
            assert(audio_entries_upto(ft@, chapters@, i + 1) == audio_entries_upto(
                ft@,
                chapters@,
                i as int,
            ) + audio_entry(ft@, chapters@[i as int], i + 1 == n));
        }
        i += 1;
    }
    push_str(&mut out, "  ]\n}\n");
    string_of(&out)
}

/// The next thing to do when fetching a chapter's audio: try the voice
/// `tone`, or stop with the result.
pub enum VoiceAttempt {
    Try(usize),
    Done(Result<(), String>),
}

/// One step of fetching a chapter's audio through the voices `tones` in
/// turn: given how the previous try ended (none before the first), either
/// it is done, on the first success or else with the last failure, or
/// voice number `next` is tried.
pub fn voice_step(tones: &Vec<usize>, next: usize, outcome: Option<Result<(), String>>) -> (res:
    VoiceAttempt)
    ensures
        match outcome {
            Some(Ok(())) => res == VoiceAttempt::Done(Ok::<(), String>(())),
            _ => if next < tones@.len() {
                res == VoiceAttempt::Try(tones@[next as int])
            } else {
                res matches VoiceAttempt::Done(Err(e)) && e@ == last_error(outcome)
            },
        },
{
    if let Some(Ok(())) = outcome {
        return VoiceAttempt::Done(Ok(()));
    }
    if next < tones.len() {
        VoiceAttempt::Try(tones[next])
    } else {
        VoiceAttempt::Done(Err(last_error_of(outcome)))
    }
}

/// The failure of a download with voice `tone` for the reason `e`.
pub open spec fn download_failure(tone: usize, e: Seq<char>) -> Seq<char> {
    "tone="@ + decimal(tone as nat) + ": "@ + e
}

/// The failure of a download with voice `tone` (see `download_failure`).
pub fn download_error(tone: usize, e: &str) -> (res: String)
    ensures
        res@ == download_failure(tone, e@),
{
    let mut out = chars_of("tone=");
    push_decimal(&mut out, tone as u64);
    push_str(&mut out, ": ");
    push_str(&mut out, e);
    string_of(&out)
}

/// The chosen voice is tried first and only then; every fallback voice
/// other than it is tried after it, and no voice that is neither.
pub proof fn chosen_voice_comes_first(tone: usize, fallbacks: Seq<usize>)
    ensures
        tone_order(tone, fallbacks)[0] == tone,
        forall|k: int| 1 <= k < tone_order(tone, fallbacks).len() ==> #[trigger] tone_order(tone, fallbacks)[k]
            != tone && fallbacks.contains(tone_order(tone, fallbacks)[k]),
        forall|f: usize| fallbacks.contains(f) && f != tone ==> #[trigger] tone_order(tone, fallbacks).contains(f),
{
    lemma_without(fallbacks, tone);
    let w = without(fallbacks, tone);
    let o = tone_order(tone, fallbacks);
    assert forall|k: int| 1 <= k < o.len() implies #[trigger] o[k] != tone && fallbacks.contains(o[k]) by {
        assert(o[k] == w[k - 1]);
    }
    assert forall|f: usize| fallbacks.contains(f) && f != tone implies #[trigger] o.contains(f) by {
        let j = choose|j: int| 0 <= j < w.len() && w[j] == f;
        assert(o[j + 1] == f);
    }
}

/// `without(v, x)` holds no `x`, only elements of `v`, and every element of
/// `v` other than `x`.
proof fn lemma_without(v: Seq<usize>, x: usize)
    ensures
        forall|k: int| 0 <= k < without(v, x).len() ==> #[trigger] without(v, x)[k] != x && v.contains(
            without(v, x)[k],
        ),
        forall|y: usize| v.contains(y) && y != x ==> exists|j: int| 0 <= j < without(v, x).len() && #[trigger] without(v, x)[j] == y,
    decreases v.len(),
{
    if v.len() > 0 {
        let init = v.drop_last();
        lemma_without(init, x);
        let w0 = without(init, x);
        let w = without(v, x);
        assert forall|k: int| 0 <= k < w.len() implies #[trigger] w[k] != x && v.contains(w[k]) by {
            if k < w0.len() {
                assert(w[k] == w0[k]);
                let j = choose|j: int| 0 <= j < init.len() && init[j] == w0[k];
                assert(v[j] == init[j]);
            } else {
                assert(w[k] == v.last());
                assert(v[v.len() - 1] == v.last());
            }
        }
        assert forall|y: usize| v.contains(y) && y != x implies exists|j: int| 0 <= j < w.len() && #[trigger] w[j] == y by {
            let i = choose|i: int| 0 <= i < v.len() && v[i] == y;
            if i < v.len() - 1 {
                assert(init[i] == y);
                assert(init.contains(y));
                let j = choose|j: int| 0 <= j < w0.len() && w0[j] == y;
                assert(w[j] == w0[j]);
            } else {
                assert(w[w.len() - 1] == y);
            }
        }
    }
}

} // verus!
