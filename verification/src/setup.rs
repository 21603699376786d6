//! The first-time setup wizard: which files it fetches, when it asks, and
//! whether it succeeded.
use vstd::arithmetic::power2::{lemma_pow2_adds, lemma_pow2_pos, pow2};
use vstd::prelude::*;

use crate::float::{law_of_int_is_near, lemma_parts, lemma_scaled_fields};
use crate::ieee::Binary64;
use crate::numerals::{double_text, push_double};
use crate::rounding::{
    double, law_rounding_keeps_order, lemma_even_unit, lemma_multiple_zero,
};
use crate::text::{
    all_white, ascii_lower_text, chars_of, decimal, law_trim_takes_off_white_space, push_decimal,
    same_text, spells, trim, trim_bounds, white_space,
};

verus! {

/// Descriptor for a downloadable model file.
#[derive(Clone, Copy, Debug)]
pub struct ModelInfo {
    /// Human-readable name shown in the setup output.
    pub name: &'static str,
    /// Filesystem path.
    pub path: &'static str,
    /// Download URL.
    pub url: &'static str,
    /// Approximate file size for display.
    pub size_hint: &'static str,
    /// Whether this model is required or optional.
    pub required: bool,
    /// Description shown to the user.
    pub description: &'static str,
}

/// Number of model files.
pub const MODEL_COUNT: usize = 3;

/// Number of steps: the download tool, the directories, and one for each model.
pub const STEP_COUNT: usize = 5;

/// A file of at most this many bytes is no whole model.
pub const TRUNCATED_SIZE: u64 = 1024;

/// The model files, in the order in which they are set up.
pub fn model(i: usize) -> (info: ModelInfo)
    requires
        i < MODEL_COUNT,
    ensures
        i == 0 ==> {
            &&& info.name@ == "ArcFace MobileFaceNet"@
            &&& info.path@ == "data/models/w600k_mbf.onnx"@
            &&& info.url@
                == "https://huggingface.co/deepghs/insightface/resolve/main/buffalo_s/w600k_mbf.onnx"@
            &&& info.size_hint@ == "~13 MB"@
            &&& info.required
            &&& info.description@ == "Required for face recognition (enroll + recognize modes)"@
        },
        i == 1 ==> {
            &&& info.name@ == "MediaPipe Hand Landmarks"@
            &&& info.path@ == "data/models/handpose_estimation_mediapipe_2023feb.onnx"@
            &&& info.url@
                == "https://github.com/opencv/opencv_zoo/raw/main/models/handpose_estimation_mediapipe/handpose_estimation_mediapipe_2023feb.onnx"@
            &&& info.size_hint@ == "~5 MB"@
            &&& !info.required
            &&& info.description@ == "Optional — needed only for hand tracking mode"@
        },
        i == 2 ==> {
            &&& info.name@ == "Haar Cascade Frontal Face"@
            &&& info.path@ == "data/models/haarcascade_frontalface_default.xml"@
            &&& info.url@
                == "https://raw.githubusercontent.com/opencv/opencv/master/data/haarcascades/haarcascade_frontalface_default.xml"@
            &&& info.size_hint@ == "~900 KB"@
            &&& info.required
            &&& info.description@ == "Required for face detection"@
        },
        info.required == needed(i as int),
        info.name@ + " ("@ + info.size_hint@ + ")"@ == model_title(i as int),
{
    if i == 0 {
        ModelInfo {
            name: "ArcFace MobileFaceNet",
            path: "data/models/w600k_mbf.onnx",
            url: "https://huggingface.co/deepghs/insightface/resolve/main/buffalo_s/w600k_mbf.onnx",
            size_hint: "~13 MB",
            required: true,
            description: "Required for face recognition (enroll + recognize modes)",
        }
    } else if i == 1 {
        ModelInfo {
            name: "MediaPipe Hand Landmarks",
            path: "data/models/handpose_estimation_mediapipe_2023feb.onnx",
            url: "https://github.com/opencv/opencv_zoo/raw/main/models/handpose_estimation_mediapipe/handpose_estimation_mediapipe_2023feb.onnx",
            size_hint: "~5 MB",
            required: false,
            description: "Optional — needed only for hand tracking mode",
        }
    } else {
        ModelInfo {
            name: "Haar Cascade Frontal Face",
            path: "data/models/haarcascade_frontalface_default.xml",
            url: "https://raw.githubusercontent.com/opencv/opencv/master/data/haarcascades/haarcascade_frontalface_default.xml",
            size_hint: "~900 KB",
            required: true,
            description: "Required for face detection",
        }
    }
}

// ---------------------------------------------------------------------------
// Downloading
// ---------------------------------------------------------------------------

/// Of the tools that are available, `curl` comes before `wget`.
pub open spec fn chosen_tool(curl: bool, wget: bool, tool: Option<Seq<char>>) -> bool {
    match tool {
        Some(t) => (curl && t == "curl"@) || (!curl && wget && t == "wget"@),
        None => !curl && !wget,
    }
}

/// The download tool to be used, of those that are available.
pub fn find_downloader(curl: bool, wget: bool) -> (tool: Option<&'static str>)
    ensures
        chosen_tool(
            curl,
            wget,
            match tool {
                Some(t) => Some(t@),
                None => None,
            },
        ),
{
    if curl {
        Some("curl")
    } else if wget {
        Some("wget")
    } else {
        None
    }
}

/// The arguments with which a tool fetches `url` into the file `dest`; `None`
/// for a tool that is not supported.
pub open spec fn tool_args(tool: Seq<char>, dest: Seq<char>, url: Seq<char>) -> Option<
    Seq<Seq<char>>,
> {
    if tool == "curl"@ {
        Some(seq!["-L"@, "--progress-bar"@, "-o"@, dest, url])
    } else if tool == "wget"@ {
        Some(seq!["-q"@, "--show-progress"@, "-O"@, dest, url])
    } else {
        None
    }
}

/// The arguments with which a tool fetches `url` into the file `dest`.
pub fn download_args(tool: &str, dest: &str, url: &str) -> (args: Result<Vec<String>, String>)
    ensures
        match args {
            Ok(list) => tool_args(tool@, dest@, url@) == Some(
                list@.map_values(|s: String| s@),
            ),
            Err(why) => tool_args(tool@, dest@, url@) is None && why@
                == "No supported download tool found"@,
        },
{
    let list: Vec<String> = if same_text(tool, "curl") {
        vec![
            "-L".to_owned(),
            "--progress-bar".to_owned(),
            "-o".to_owned(),
            dest.to_owned(),
            url.to_owned(),
        ]
    } else if same_text(tool, "wget") {
        vec![
            "-q".to_owned(),
            "--show-progress".to_owned(),
            "-O".to_owned(),
            dest.to_owned(),
            url.to_owned(),
        ]
    } else {
        return Err("No supported download tool found".to_owned());
    };
    assert(list@.map_values(|s: String| s@) =~= tool_args(tool@, dest@, url@)->0);
    Ok(list)
}

/// What is to be done about a model file.
#[derive(Clone, Copy, Debug, PartialEq, Eq, Structural)]
pub enum ModelPlan {
    /// It is there already.
    Keep,
    /// Download it at once; `discard` says that a truncated file is in the way.
    Download { discard: bool },
    /// Ask whether to download it; `discard` says that a truncated file is in
    /// the way, which goes in any case.
    Ask { discard: bool },
}

/// What is to be done about a model, given the size of its file if there is
/// one: a whole file is kept; else a required model is downloaded, and the user
/// is asked about an optional one.
pub fn plan_model(required: bool, size: Option<u64>) -> (plan: ModelPlan)
    ensures
        plan == if size is Some && size->0 > TRUNCATED_SIZE {
            ModelPlan::Keep
        } else if required {
            ModelPlan::Download { discard: size is Some }
        } else {
            ModelPlan::Ask { discard: size is Some }
        },
{
    let discard: bool = match size {
        Some(n) => {
            if n > TRUNCATED_SIZE {
                return ModelPlan::Keep;
            }
            true
        },
        None => false,
    };
    if required {
        ModelPlan::Download { discard }
    } else {
        ModelPlan::Ask { discard }
    }
}

/// What a user's answer means: yes or no in either case, anything else the
/// default.
pub open spec fn answer(input: Seq<char>, default: bool) -> bool {
    let word = ascii_lower_text(trim(input));
    if word == "y"@ || word == "yes"@ {
        true
    } else if word == "n"@ || word == "no"@ {
        false
    } else {
        default
    }
}

/// What a user's answer to a yes-or-no question means.
pub fn parse_answer(input: &str, default: bool) -> (yes: bool)
    ensures
        yes == answer(input@, default),
{
    let chars: Vec<char> = chars_of(input);
    assert(chars@.subrange(0, chars@.len() as int) =~= input@);
    let (lo, hi) = trim_bounds(&chars, 0, chars.len());
    if spells(&chars, lo, hi, "y") || spells(&chars, lo, hi, "yes") {
        true
    } else if spells(&chars, lo, hi, "n") || spells(&chars, lo, hi, "no") {
        false
    } else {
        default
    }
}

/// The hint behind a yes-or-no question: the default in upper case.
pub fn answer_hint(default: bool) -> (hint: &'static str)
    ensures
        hint@ == if default {
            "Y/n"@
        } else {
            "y/N"@
        },
{
    if default {
        "Y/n"
    } else {
        "y/N"
    }
}

// ---------------------------------------------------------------------------
// Lines
// ---------------------------------------------------------------------------

/// How a line is marked.
#[derive(Clone, Copy, Debug, PartialEq, Eq, Structural)]
pub enum Mark {
    /// Something is in order.
    Fine,
    /// Something is out of the ordinary.
    Warning,
    /// Something failed.
    Failure,
    /// A remark.
    Note,
    /// A command for the user.
    Hint,
}

/// A line for the user.
#[derive(Debug)]
pub struct Line {
    pub mark: Mark,
    pub text: String,
}

/// Whether a line has that mark and text.
pub open spec fn line_is(line: Line, mark: Mark, text: Seq<char>) -> bool {
    line.mark == mark && line.text@ == text
}

/// Whether there is one line, of that mark and text.
pub open spec fn only_line(lines: Seq<Line>, mark: Mark, text: Seq<char>) -> bool {
    lines.len() == 1 && line_is(lines[0], mark, text)
}

fn one_line(mark: Mark, text: String) -> (lines: Vec<Line>)
    ensures
        only_line(lines@, mark, text@),
{
    vec![Line { mark, text }]
}

/// A size in bytes as megabytes, in brackets.
pub open spec fn size_text(size: u64) -> Seq<char> {
    let megabytes = Binary64::of_int(size as int).quotient(
        Binary64 { bits: 0x4130_0000_0000_0000 },
    );
    " ("@ + double_text(megabytes, 1) + " MB)"@
}

/// A word and a size in bytes as megabytes.
fn sized(word: &str, size: u64) -> (text: String)
    ensures
        text@ == word@ + size_text(size),
{
    let mut text: String = word.to_owned();
    text.append(" (");
    push_double(
        &mut text,
        Binary64::from_u64(size).over(Binary64 { bits: 0x4130_0000_0000_0000 }),
        1,
    );
    text.append(" MB)");
    assert(text@ =~= word@ + size_text(size));
    text
}

fn joined(head: &str, tail: &str) -> (text: String)
    ensures
        text@ == head@ + tail@,
{
    let mut text: String = head.to_owned();
    text.append(tail);
    text
}

// ---------------------------------------------------------------------------
// The run
// ---------------------------------------------------------------------------

/// What the setup waits for.
#[derive(Clone, Copy, Debug, PartialEq, Eq, Structural)]
pub enum Stage {
    /// Which download tools there are.
    Tools,
    /// That the directories were made.
    Directories,
    /// How large the file of a model is.
    Inspect(usize),
    /// Whether an optional model is wanted.
    Ask(usize),
    /// How the download of a model ended.
    Fetch(usize),
    /// Where the Haar cascade is.
    Cascade,
    /// Whether the ArcFace model loads.
    ArcFace,
    /// Nothing more.
    End,
}

/// How far a setup has come.
#[derive(Clone, Copy, Debug, PartialEq, Eq, Structural)]
pub struct Progress {
    pub stage: Stage,
    /// Whether there was no download tool.
    pub stuck: bool,
    /// Whether something failed that is required.
    pub failed: bool,
}

/// Whether a model is required.
pub open spec fn needed(i: int) -> bool {
    i != 1
}

/// The title of model `i`: its name and its size.
pub open spec fn model_title(i: int) -> Seq<char> {
    if i == 0 {
        "ArcFace MobileFaceNet"@ + " ("@ + "~13 MB"@ + ")"@
    } else if i == 1 {
        "MediaPipe Hand Landmarks"@ + " ("@ + "~5 MB"@ + ")"@
    } else {
        "Haar Cascade Frontal Face"@ + " ("@ + "~900 KB"@ + ")"@
    }
}

/// The number of a step, of all steps.
pub open spec fn step_tag(number: nat) -> Seq<char> {
    "["@ + decimal(number) + "/"@ + decimal(STEP_COUNT as nat) + "]"@
}

/// The tag and the title of a stage, if it has a heading.
pub open spec fn stage_heading(stage: Stage) -> Option<(Seq<char>, Seq<char>)> {
    match stage {
        Stage::Tools => Some((step_tag(1), "Checking download tools"@)),
        Stage::Directories => Some((step_tag(2), "Checking directory structure"@)),
        Stage::Inspect(i) => Some((step_tag((i + 3) as nat), model_title(i as int))),
        Stage::Cascade => Some(("[+]"@, "Verifying Haar cascade"@)),
        Stage::ArcFace => Some(("[+]"@, "Verifying ArcFace model"@)),
        _ => None,
    }
}

/// The number of a step, of all steps.
fn tag(number: usize) -> (text: String)
    ensures
        text@ == step_tag(number as nat),
{
    let mut text: String = "[".to_owned();
    push_decimal(&mut text, number as u64);
    text.append("/");
    push_decimal(&mut text, STEP_COUNT as u64);
    text.append("]");
    text
}

/// Where the setup goes on behind model `i`.
pub open spec fn behind(i: usize) -> Stage {
    if i + 1 < MODEL_COUNT {
        Stage::Inspect((i + 1) as usize)
    } else {
        Stage::Cascade
    }
}

/// What is to be done about model `i`, given the size of its file if there is
/// one.
pub open spec fn plan(i: int, size: Option<u64>) -> ModelPlan {
    if size is Some && size->0 > TRUNCATED_SIZE {
        ModelPlan::Keep
    } else if needed(i) {
        ModelPlan::Download { discard: size is Some }
    } else {
        ModelPlan::Ask { discard: size is Some }
    }
}

impl Progress {
    /// A model that is in its stage is one of those there are.
    pub open spec fn in_order(self) -> bool {
        match self.stage {
            Stage::Inspect(i) => i < MODEL_COUNT,
            Stage::Ask(i) => i < MODEL_COUNT,
            Stage::Fetch(i) => i < MODEL_COUNT,
            _ => true,
        }
    }

    /// Behind the search for download tools: without one, the setup is over.
    pub open spec fn after_tools(self, any: bool) -> Progress {
        if any {
            Progress { stage: Stage::Directories, ..self }
        } else {
            Progress { stage: Stage::End, stuck: true, ..self }
        }
    }

    /// Behind the making of the directories.
    pub open spec fn after_directories(self) -> Progress {
        Progress { stage: Stage::Inspect(0), ..self }
    }

    /// Behind the look at the file of model `i`: a whole file is kept; else a
    /// required model is fetched, and the user is asked about an optional one.
    pub open spec fn after_size(self, i: usize, size: Option<u64>) -> Progress {
        let stage = match plan(i as int, size) {
            ModelPlan::Keep => behind(i),
            ModelPlan::Download { .. } => Stage::Fetch(i),
            ModelPlan::Ask { .. } => Stage::Ask(i),
        };
        Progress { stage, ..self }
    }

    /// Behind the question about model `i`.
    pub open spec fn after_answer(self, i: usize, wanted: bool) -> Progress {
        Progress {
            stage: if wanted {
                Stage::Fetch(i)
            } else {
                behind(i)
            },
            ..self
        }
    }

    /// Behind the download of model `i`: only a required one can fail the setup.
    pub open spec fn after_fetch(self, i: usize, fetched: bool) -> Progress {
        Progress {
            stage: behind(i),
            failed: self.failed || (needed(i as int) && !fetched),
            ..self
        }
    }

    /// Behind the search for the Haar cascade.
    pub open spec fn after_cascade(self, found: bool) -> Progress {
        Progress { stage: Stage::ArcFace, failed: self.failed || !found, ..self }
    }

    /// Behind the trial of the ArcFace model, which is made if its file is there.
    pub open spec fn after_arcface(self, loads: Option<bool>) -> Progress {
        Progress { stage: Stage::End, failed: self.failed || loads == Some(false), ..self }
    }

    /// How many replies at most are still missing.
    pub open spec fn left(self) -> int {
        match self.stage {
            Stage::Tools => 4 + 3 * MODEL_COUNT,
            Stage::Directories => 3 + 3 * MODEL_COUNT,
            Stage::Inspect(i) => 2 + 3 * (MODEL_COUNT - i),
            Stage::Ask(i) => 1 + 3 * (MODEL_COUNT - i),
            Stage::Fetch(i) => 3 * (MODEL_COUNT - i),
            Stage::Cascade => 2,
            Stage::ArcFace => 1,
            Stage::End => 0,
        }
    }
}

/// Every reply brings the setup nearer to its end, whatever it is.
pub proof fn law_setup_comes_to_an_end(
    p: Progress,
    yes: bool,
    size: Option<u64>,
    loads: Option<bool>,
)
    requires
        p.in_order(),
    ensures
        match p.stage {
            Stage::Tools => p.after_tools(yes).in_order() && p.after_tools(yes).left() < p.left(),
            Stage::Directories => p.after_directories().in_order() && p.after_directories().left()
                < p.left(),
            Stage::Inspect(i) => p.after_size(i, size).in_order() && p.after_size(i, size).left()
                < p.left(),
            Stage::Ask(i) => p.after_answer(i, yes).in_order() && p.after_answer(i, yes).left()
                < p.left(),
            Stage::Fetch(i) => p.after_fetch(i, yes).in_order() && p.after_fetch(i, yes).left()
                < p.left(),
            Stage::Cascade => p.after_cascade(yes).left() < p.left(),
            Stage::ArcFace => p.after_arcface(loads).left() < p.left(),
            Stage::End => p.left() == 0,
        },
{
}

/// An optional model never fails the setup: whether its file is there, whether
/// it is wanted and how its download ends leaves no error.
pub proof fn law_optional_model_fails_nothing(
    p: Progress,
    i: usize,
    size: Option<u64>,
    wanted: bool,
    fetched: bool,
)
    requires
        !needed(i as int),
    ensures
        p.after_size(i, size).failed == p.failed,
        p.after_answer(i, wanted).failed == p.failed,
        p.after_fetch(i, fetched).failed == p.failed,
        !(plan(i as int, size) is Download),
{
}

/// What a setup is told on its way, if it comes to ask.
pub struct Replies {
    /// Whether there is a download tool.
    pub tool: bool,
    /// The size of the file of each model, if there is one.
    pub sizes: Seq<Option<u64>>,
    /// Whether each model is wanted.
    pub wanted: Seq<bool>,
    /// Whether the download of each model succeeds.
    pub fetched: Seq<bool>,
    /// Whether the Haar cascade is found.
    pub cascade: bool,
    /// Whether the ArcFace model loads; nothing if its file is not there.
    pub arcface: Option<bool>,
}

impl Replies {
    /// The file of model `i` is whole, or its download succeeds.
    pub open spec fn provides(self, i: int) -> bool {
        (self.sizes[i] is Some && self.sizes[i]->0 > TRUNCATED_SIZE) || self.fetched[i]
    }
}

/// How far a setup has come before its first step.
pub open spec fn at_start() -> Progress {
    Progress { stage: Stage::Tools, stuck: false, failed: false }
}

/// Behind the reply to what the setup waits for.
pub open spec fn told(p: Progress, r: Replies) -> Progress {
    match p.stage {
        Stage::Tools => p.after_tools(r.tool),
        Stage::Directories => p.after_directories(),
        Stage::Inspect(i) => p.after_size(i, r.sizes[i as int]),
        Stage::Ask(i) => p.after_answer(i, r.wanted[i as int]),
        Stage::Fetch(i) => p.after_fetch(i, r.fetched[i as int]),
        Stage::Cascade => p.after_cascade(r.cascade),
        Stage::ArcFace => p.after_arcface(r.arcface),
        Stage::End => p,
    }
}

/// Behind the first `n` replies.
pub open spec fn after_replies(p: Progress, r: Replies, n: nat) -> Progress
    decreases n,
{
    if n == 0 {
        p
    } else {
        told(after_replies(p, r, (n - 1) as nat), r)
    }
}

/// How a setup ends that waits for the file of model `i`.
proof fn lemma_models_end(p: Progress, r: Replies, i: usize) -> (n: nat)
    requires
        i <= MODEL_COUNT,
        p.stage == if i < MODEL_COUNT {
            Stage::Inspect(i)
        } else {
            Stage::Cascade
        },
    ensures
        ({
            let last = after_replies(p, r, n);
            &&& last.stage == Stage::End
            &&& last.stuck == p.stuck
            &&& last.failed == (p.failed || !r.cascade || r.arcface == Some(false) || exists|k: int|
                i <= k < MODEL_COUNT && needed(k) && !#[trigger] r.provides(k))
        }),
    decreases MODEL_COUNT - i,
{
    if i == MODEL_COUNT {
        assert(after_replies(p, r, 0) == p);
        assert(after_replies(p, r, 1) == told(p, r));
        assert(after_replies(p, r, 2) == told(told(p, r), r));
        2
    } else {
        let one = told(p, r);
        let two = told(one, r);
        let three = told(two, r);
        assert(after_replies(p, r, 0) == p);
        assert(after_replies(p, r, 1) == one);
        assert(after_replies(p, r, 2) == two);
        assert(after_replies(p, r, 3) == three);
        let (behind, steps) = if one.stage == behind(i) {
            (one, 1nat)
        } else if two.stage == behind(i) {
            (two, 2nat)
        } else {
            (three, 3nat)
        };
        assert(behind.failed == (p.failed || (needed(i as int) && !r.provides(i as int))));
        let more = lemma_models_end(behind, r, (i + 1) as usize);
        lemma_replies_add(p, r, steps, more);
        steps + more
    }
}

proof fn lemma_replies_add(p: Progress, r: Replies, a: nat, b: nat)
    ensures
        after_replies(p, r, a + b) == after_replies(after_replies(p, r, a), r, b),
    decreases b,
{
    if b > 0 {
        lemma_replies_add(p, r, a, (b - 1) as nat);
    }
}

/// Behind the end, replies change nothing.
proof fn lemma_replies_end(p: Progress, r: Replies, n: nat, m: nat)
    requires
        after_replies(p, r, n).stage == Stage::End,
        n <= m,
    ensures
        after_replies(p, r, m) == after_replies(p, r, n),
    decreases m,
{
    if n < m {
        lemma_replies_end(p, r, n, (m - 1) as nat);
    }
}

/// How a whole setup ends: behind its last reply it succeeded exactly if there
/// is a download tool, each required model was whole or was fetched, the Haar
/// cascade was found, and the ArcFace model loads or its file is not there.
/// Without a tool it is stuck.
pub proof fn law_setup_succeeds_if_all_is_there(r: Replies, n: nat)
    requires
        after_replies(at_start(), r, n).stage == Stage::End,
    ensures
        ({
            let last = after_replies(at_start(), r, n);
            &&& !last.stuck && !last.failed <==> {
                &&& r.tool
                &&& forall|i: int|
                    0 <= i < MODEL_COUNT && needed(i) ==> #[trigger] r.provides(i)
                &&& r.cascade
                &&& r.arcface != Some(false)
            }
            &&& last.stuck <==> !r.tool
        }),
{
    let start = at_start();
    let one = told(start, r);
    let two = told(one, r);
    assert(after_replies(start, r, 0) == start);
    assert(after_replies(start, r, 1) == one);
    assert(after_replies(start, r, 2) == two);
    let last = if r.tool {
        let more = lemma_models_end(two, r, 0);
        lemma_replies_add(start, r, 2, more);
        2 + more
    } else {
        1
    };
    if n <= last {
        lemma_replies_end(start, r, n, last);
    } else {
        lemma_replies_end(start, r, last, n);
    }
}

/// However it is replied, a setup is at its end behind as many replies as it
/// can ask for.
pub proof fn law_setup_ends(r: Replies)
    ensures
        after_replies(at_start(), r, at_start().left() as nat).stage == Stage::End,
{
    lemma_left_behind(at_start(), r, at_start().left() as nat);
}

proof fn lemma_left_behind(p: Progress, r: Replies, n: nat)
    requires
        p.in_order(),
    ensures
        after_replies(p, r, n).in_order(),
        0 <= after_replies(p, r, n).left(),
        after_replies(p, r, n).left() <= p.left() - n || after_replies(p, r, n).stage == Stage::End,
    decreases n,
{
    if n > 0 {
        lemma_left_behind(p, r, (n - 1) as nat);
    }
}

/// A setup that is under way.
pub struct SetupRun {
    progress: Progress,
}

impl SetupRun {
    /// How far the setup has come.
    pub closed spec fn view(&self) -> Progress {
        self.progress
    }

    /// A setup before its first step.
    pub fn new() -> (run: Self)
        ensures
            run@ == at_start(),
            run@.in_order(),
    {
        SetupRun { progress: Progress { stage: Stage::Tools, stuck: false, failed: false } }
    }

    /// What the setup waits for.
    pub fn stage(&self) -> (stage: Stage)
        ensures
            stage == self@.stage,
    {
        self.progress.stage
    }

    /// The tag and the title of the stage, if it has a heading.
    pub fn heading(&self) -> (heading: Option<(String, String)>)
        requires
            self@.in_order(),
        ensures
            match heading {
                Some(h) => stage_heading(self@.stage) == Some((h.0@, h.1@)),
                None => stage_heading(self@.stage) is None,
            },
    {
        match self.progress.stage {
            Stage::Tools => Some((tag(1), "Checking download tools".to_owned())),
            Stage::Directories => Some((tag(2), "Checking directory structure".to_owned())),
            Stage::Inspect(i) => {
                let info: ModelInfo = model(i);
                let mut title: String = info.name.to_owned();
                title.append(" (");
                title.append(info.size_hint);
                title.append(")");
                Some((tag(i + 3), title))
            },
            Stage::Cascade => Some(("[+]".to_owned(), "Verifying Haar cascade".to_owned())),
            Stage::ArcFace => Some(("[+]".to_owned(), "Verifying ArcFace model".to_owned())),
            _ => None,
        }
    }

    /// Takes which download tools there are, and returns the one to be used.
    pub fn on_tools(&mut self, curl: bool, wget: bool) -> (out: (Option<&'static str>, Vec<Line>))
        requires
            old(self)@.stage == Stage::Tools,
        ensures
            final(self)@ == old(self)@.after_tools(curl || wget),
            match out.0 {
                Some(tool) => chosen_tool(curl, wget, Some(tool@)) && only_line(
                    out.1@,
                    Mark::Fine,
                    "Found: "@ + tool@,
                ),
                None => {
                    &&& chosen_tool(curl, wget, None)
                    &&& out.1@.len() == 4
                    &&& line_is(out.1@[0], Mark::Failure, "Neither curl nor wget found"@)
                    &&& line_is(out.1@[1], Mark::Note, "Install one of them:"@)
                    &&& line_is(out.1@[2], Mark::Hint, "sudo pacman -S curl    # Arch"@)
                    &&& line_is(out.1@[3], Mark::Hint, "sudo apt install curl  # Ubuntu/Debian"@)
                },
            },
    {
        match find_downloader(curl, wget) {
            Some(tool) => {
                self.progress.stage = Stage::Directories;
                (Some(tool), one_line(Mark::Fine, joined("Found: ", tool)))
            },
            None => {
                self.progress.stage = Stage::End;
                self.progress.stuck = true;
                let lines: Vec<Line> = vec![
                    Line { mark: Mark::Failure, text: "Neither curl nor wget found".to_owned() },
                    Line { mark: Mark::Note, text: "Install one of them:".to_owned() },
                    Line { mark: Mark::Hint, text: "sudo pacman -S curl    # Arch".to_owned() },
                    Line {
                        mark: Mark::Hint,
                        text: "sudo apt install curl  # Ubuntu/Debian".to_owned(),
                    },
                ];
                (None, lines)
            },
        }
    }

    /// Takes note that the directories were made.
    pub fn on_directories(&mut self) -> (lines: Vec<Line>)
        requires
            old(self)@.stage == Stage::Directories,
        ensures
            final(self)@ == old(self)@.after_directories(),
            lines@.len() == 2,
            line_is(lines@[0], Mark::Fine, "data/models/ ready"@),
            line_is(lines@[1], Mark::Fine, "data/faces/ ready"@),
    {
        self.progress.stage = Stage::Inspect(0);
        vec![
            Line { mark: Mark::Fine, text: "data/models/ ready".to_owned() },
            Line { mark: Mark::Fine, text: "data/faces/ ready".to_owned() },
        ]
    }

    /// Takes the size of the file of the model that is inspected, if there is
    /// one, and returns what is to be done about it.
    pub fn on_size(&mut self, size: Option<u64>) -> (out: (ModelPlan, Vec<Line>))
        requires
            old(self)@.in_order(),
            old(self)@.stage is Inspect,
        ensures
            final(self)@ == old(self)@.after_size(old(self)@.stage->Inspect_0, size),
            final(self)@.in_order(),
            out.0 == plan(old(self)@.stage->Inspect_0 as int, size),
            match out.0 {
                ModelPlan::Keep => only_line(
                    out.1@,
                    Mark::Fine,
                    "Already downloaded"@ + size_text(size->0),
                ),
                ModelPlan::Download { discard } => {
                    &&& out.1@.len() == if discard {
                        2int
                    } else {
                        1
                    }
                    &&& discard ==> line_is(out.1@[0], Mark::Warning, truncated_text())
                    &&& line_is(out.1@.last(), Mark::Note, required_text())
                },
                ModelPlan::Ask { discard } => if discard {
                    only_line(out.1@, Mark::Warning, truncated_text())
                } else {
                    out.1@.len() == 0
                },
            },
    {
        let i: usize = match self.progress.stage {
            Stage::Inspect(i) => i,
            _ => 0,
        };
        let plan: ModelPlan = plan_model(model(i).required, size);
        let mut lines: Vec<Line> = Vec::new();
        match plan {
            ModelPlan::Keep => {
                self.progress.stage = next_stage(i);
                let n: u64 = match size {
                    Some(n) => n,
                    None => 0,
                };
                lines.push(Line { mark: Mark::Fine, text: sized("Already downloaded", n) });
            },
            ModelPlan::Download { discard } => {
                self.progress.stage = Stage::Fetch(i);
                if discard {
                    lines.push(Line { mark: Mark::Warning, text: TRUNCATED.to_owned() });
                }
                lines.push(Line { mark: Mark::Note, text: REQUIRED.to_owned() });
            },
            ModelPlan::Ask { discard } => {
                self.progress.stage = Stage::Ask(i);
                if discard {
                    lines.push(Line { mark: Mark::Warning, text: TRUNCATED.to_owned() });
                }
            },
        }
        (plan, lines)
    }

    /// Takes whether the optional model is wanted.
    pub fn on_answer(&mut self, wanted: bool) -> (lines: Vec<Line>)
        requires
            old(self)@.in_order(),
            old(self)@.stage is Ask,
        ensures
            final(self)@ == old(self)@.after_answer(old(self)@.stage->Ask_0, wanted),
            final(self)@.in_order(),
            if wanted {
                lines@.len() == 0
            } else {
                only_line(
                    lines@,
                    Mark::Warning,
                    "Skipped (you can download it later with `cargo run -- setup`)"@,
                )
            },
    {
        let i: usize = match self.progress.stage {
            Stage::Ask(i) => i,
            _ => 0,
        };
        if wanted {
            self.progress.stage = Stage::Fetch(i);
            Vec::new()
        } else {
            self.progress.stage = next_stage(i);
            one_line(
                Mark::Warning,
                "Skipped (you can download it later with `cargo run -- setup`)".to_owned(),
            )
        }
    }

    /// Takes how the download of a model ended: with the size of its file, or
    /// with a reason why it failed.
    pub fn on_fetched(&mut self, fetched: Result<u64, String>) -> (lines: Vec<Line>)
        requires
            old(self)@.in_order(),
            old(self)@.stage is Fetch,
        ensures
            final(self)@ == old(self)@.after_fetch(old(self)@.stage->Fetch_0, fetched is Ok),
            final(self)@.in_order(),
            match fetched {
                Ok(size) => only_line(lines@, Mark::Fine, "Downloaded"@ + size_text(size)),
                Err(why) => only_line(lines@, Mark::Failure, "Download failed: "@ + why@),
            },
    {
        let i: usize = match self.progress.stage {
            Stage::Fetch(i) => i,
            _ => 0,
        };
        self.progress.stage = next_stage(i);
        match fetched {
            Ok(size) => one_line(Mark::Fine, sized("Downloaded", size)),
            Err(why) => {
                if model(i).required {
                    self.progress.failed = true;
                }
                one_line(Mark::Failure, joined("Download failed: ", why.as_str()))
            },
        }
    }

    /// Takes where the Haar cascade is, if it was found.
    pub fn on_cascade(&mut self, found: Option<&str>) -> (lines: Vec<Line>)
        requires
            old(self)@.stage == Stage::Cascade,
        ensures
            final(self)@ == old(self)@.after_cascade(found is Some),
            match found {
                Some(path) => only_line(lines@, Mark::Fine, "Found: "@ + path@),
                None => {
                    &&& lines@.len() == 3
                    &&& line_is(
                        lines@[0],
                        Mark::Failure,
                        "Haar cascade not found (local or system)"@,
                    )
                    &&& line_is(
                        lines@[1],
                        Mark::Note,
                        "Install OpenCV with data files, or run setup again:"@,
                    )
                    &&& line_is(lines@[2], Mark::Hint, "cargo run -- setup"@)
                },
            },
    {
        self.progress.stage = Stage::ArcFace;
        match found {
            Some(path) => one_line(Mark::Fine, joined("Found: ", path)),
            None => {
                self.progress.failed = true;
                vec![
                    Line {
                        mark: Mark::Failure,
                        text: "Haar cascade not found (local or system)".to_owned(),
                    },
                    Line {
                        mark: Mark::Note,
                        text: "Install OpenCV with data files, or run setup again:".to_owned(),
                    },
                    Line { mark: Mark::Hint, text: "cargo run -- setup".to_owned() },
                ]
            },
        }
    }

    /// Takes whether the ArcFace model loads, or the reason why not; nothing if
    /// its file is not there.
    pub fn on_arcface(&mut self, loads: Option<Result<(), String>>) -> (lines: Vec<Line>)
        requires
            old(self)@.stage == Stage::ArcFace,
        ensures
            final(self)@ == old(self)@.after_arcface(
                match loads {
                    None => None::<bool>,
                    Some(tried) => Some(tried is Ok),
                },
            ),
            match loads {
                None => lines@.len() == 0,
                Some(Ok(_)) => only_line(
                    lines@,
                    Mark::Fine,
                    "Model loads and initializes correctly"@,
                ),
                Some(Err(why)) => only_line(lines@, Mark::Failure, "Model failed to load: "@ + why@),
            },
    {
        self.progress.stage = Stage::End;
        match loads {
            None => Vec::new(),
            Some(Ok(_)) => one_line(
                Mark::Fine,
                "Model loads and initializes correctly".to_owned(),
            ),
            Some(Err(why)) => {
                self.progress.failed = true;
                one_line(Mark::Failure, joined("Model failed to load: ", why.as_str()))
            },
        }
    }

    /// How the setup ended: an error if it could not begin, or if something
    /// failed that is required.
    pub fn outcome(&self) -> (done: Result<(), String>)
        ensures
            done is Ok <==> !self@.stuck && !self@.failed,
            done matches Err(why) ==> why@ == if self@.stuck {
                "No download tool available. Install curl or wget."@
            } else {
                "Setup incomplete — see errors above"@
            },
    {
        if self.progress.stuck {
            Err("No download tool available. Install curl or wget.".to_owned())
        } else if self.progress.failed {
            Err("Setup incomplete — see errors above".to_owned())
        } else {
            Ok(())
        }
    }
}

/// What is said of a truncated file.
pub const TRUNCATED: &'static str = "File exists but looks truncated — re-downloading";

/// What is said of a required model.
pub const REQUIRED: &'static str = "This model is required — downloading now.";

/// What is said of a truncated file.
pub open spec fn truncated_text() -> Seq<char> {
    TRUNCATED@
}

/// What is said of a required model.
pub open spec fn required_text() -> Seq<char> {
    REQUIRED@
}

/// Where the setup goes on behind model `i`.
fn next_stage(i: usize) -> (stage: Stage)
    requires
        i < MODEL_COUNT,
    ensures
        stage == behind(i),
{
    if i + 1 < MODEL_COUNT {
        Stage::Inspect(i + 1)
    } else {
        Stage::Cascade
    }
}

/// A file of more than a kilobyte is whole and kept; any other is no file of a
/// model.
pub proof fn law_more_than_a_kilobyte_is_kept(i: int, size: Option<u64>)
    ensures
        plan(i, size) is Keep <==> size is Some && size->0 > 1024,
        plan(i, size) is Download <==> !(size is Some && size->0 > 1024) && (i != 1),
{
}

/// White space around an answer and the case of its letters do not matter: what
/// is left is a yes, a no, or leaves it at the default.
pub proof fn law_answers_are_read_generously(
    before: Seq<char>,
    word: Seq<char>,
    behind: Seq<char>,
    default: bool,
)
    requires
        all_white(before),
        all_white(behind),
        word.len() > 0 ==> !white_space(word[0]) && !white_space(word[word.len() - 1]),
    ensures
        ({
            let given = answer(before + word + behind, default);
            let low = ascii_lower_text(word);
            &&& low == "y"@ || low == "yes"@ ==> given
            &&& low == "n"@ || low == "no"@ ==> !given
            &&& low != "y"@ && low != "yes"@ && low != "n"@ && low != "no"@ ==> given == default
        }),
{
    law_trim_takes_off_white_space(before, word, behind);
    reveal_strlit("y");
    reveal_strlit("yes");
    reveal_strlit("n");
    reveal_strlit("no");
    assert("y"@[0] != "n"@[0] && "yes"@[0] != "n"@[0] && "y"@[0] != "no"@[0] && "yes"@[0]
        != "no"@[0]);
}

/// A size is shown in megabytes: the number that is written, times 2^20, is the
/// size, without any rounding.
pub proof fn law_size_is_in_megabytes(size: u64) -> (megabytes: Binary64)
    requires
        size <= 0x20_0000_0000_0000,
    ensures
        size_text(size) == " ("@ + double_text(megabytes, 1) + " MB)"@,
        megabytes.finite(),
        megabytes.value() * 0x10_0000 == size * pow2(1074),
{
    let format = double();
    let v = Binary64::of_int(size as int);
    let per = Binary64 { bits: 0x4130_0000_0000_0000 };
    let m = v.quotient(per);
    let t = pow2(1074);
    lemma_even_unit(format);
    lemma_pow2_pos(1074);
    lemma_pow2_pos(1054);
    law_of_int_is_near(format, size as int);
    let f = 0x4130_0000_0000_0000nat;
    assert(f % 0x8000_0000_0000_0000 == f);
    assert(f % 0x10_0000_0000_0000 == 0 && f / 0x10_0000_0000_0000 == 1043);
    lemma_pow2_adds(52, 1042);
    lemma_pow2_adds(20, 1074);
    lemma_pow2_adds(20, 1054);
    vstd::arithmetic::power2::lemma2_to64();
    vstd::arithmetic::power2::lemma2_to64_rest();
    let (u, p) = (0x10_0000_0000_0000nat, pow2(1042));
    assert((u + 0) * p == u * p);
    let d = format.number(f);
    assert(d == 0x10_0000 * t);
    let s = size as nat;
    lemma_parts(format, v.bits as nat);
    lemma_multiple_zero(v.fields(), format.unit());
    lemma_multiple_zero(0, format.unit());
    let q = pow2(1054);
    if s == 0 {
        assert(0 * t == 0) by (nonlinear_arith);
        assert(v.value() == 0);
        assert(format.quotient(v.bits as nat, f) % 0x8000_0000_0000_0000 == 0);
        assert(m.value() == 0);
    } else {
        assert(s * t > 0) by (nonlinear_arith)
            requires
                s > 0,
                t > 0,
        ;
        let g = lemma_scaled_fields(format, s, 1054);
        let num = format.number(v.fields()) * t;
        assert(num == (s * q) * d) by (nonlinear_arith)
            requires
                num == (s * t) * t,
                d == 0x10_0000 * t,
                t == 0x10_0000 * q,
        ;
        law_rounding_keeps_order(format, num, d, g);
        assert(format.rounded(num, d) == g);
        let bits = format.quotient(v.bits as nat, f);
        assert(bits == g);
        assert(g % 0x8000_0000_0000_0000 == g);
        assert((s * q) * 0x10_0000 == s * t) by (nonlinear_arith)
            requires
                t == 0x10_0000 * q,
        ;
    }
    m
}

/// Each of the three models has its turn: one that is whole is passed over, the
/// second is asked for and fetched exactly if it is wanted, and the others are
/// fetched; then comes the next one, and behind the last the cascade.  The setup
/// fails over a model exactly if it is not the second and its download failed.
pub proof fn law_each_model_has_its_turn(
    p: Progress,
    i: usize,
    size: Option<u64>,
    wanted: bool,
    fetched: bool,
)
    requires
        i < 3,
    ensures
        ({
            let next = if i == 2 {
                Stage::Cascade
            } else {
                Stage::Inspect((i + 1) as usize)
            };
            let whole = size is Some && size->0 > 1024;
            let (looked, answered, tried) = (
                p.after_size(i, size),
                p.after_answer(i, wanted),
                p.after_fetch(i, fetched),
            );
            &&& looked.stage == next <==> whole
            &&& looked.stage == Stage::Ask(i) <==> !whole && i == 1
            &&& looked.stage == Stage::Fetch(i) <==> !whole && i != 1
            &&& answered.stage == Stage::Fetch(i) <==> wanted
            &&& answered.stage == next <==> !wanted
            &&& tried.stage == next
            &&& looked.failed == p.failed && answered.failed == p.failed
            &&& tried.failed <==> p.failed || (i != 1 && !fetched)
            &&& looked.stuck == p.stuck && answered.stuck == p.stuck && tried.stuck == p.stuck
        }),
{
}

/// A tool that is found is there, `curl` before `wget`, and none is found only if
/// neither is there; what it is told ends with where from, and names where to.
pub proof fn law_tool_fetches_from_where_to_where(
    curl: bool,
    wget: bool,
    tool: Option<Seq<char>>,
    dest: Seq<char>,
    url: Seq<char>,
)
    requires
        chosen_tool(curl, wget, tool),
    ensures
        tool is Some <==> curl || wget,
        curl ==> tool == Some("curl"@),
        !curl && wget ==> tool == Some("wget"@),
        tool matches Some(t) ==> ({
            let args = tool_args(t, dest, url);
            &&& args is Some
            &&& args->0.last() == url
            &&& args->0[args->0.len() - 2] == dest
        }),
{
}

} // verus!
