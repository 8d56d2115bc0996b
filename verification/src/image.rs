//! Making a picture: what a request has to be, what each model is handed, and the order the
//! work is done in.
//!
//! The transformer, the text encoder and the decoder are run by the caller. [`Generation`] says
//! which of them is next and is told how it went; everything that is decided between two of
//! them is here.

use vstd::prelude::*;
use vstd::string::*;
use crate::ieee;
use crate::text;

verus! {

/// The text encoder's chat framing around a prompt. The hidden states of the framing itself are
/// dropped; only the prompt's own tokens condition the picture, but they are encoded in this
/// context.
pub const PROMPT_TEMPLATE_PREFIX: &'static str =
    "<|im_start|>system\nDescribe the image by detailing the color, shape, size, texture, quantity, text, spatial relationships of the objects and background:<|im_end|>\n<|im_start|>user\n";

pub const PROMPT_TEMPLATE_SUFFIX: &'static str = "<|im_end|>\n<|im_start|>assistant\n";

/// How much of a prompt is read.
pub const MAX_PROMPT_TOKENS: usize = 1024;

/// The architecture string of the text encoder the pipeline needs.
pub const TEXT_ENCODER_ARCHITECTURE: &'static str = "qwen2vl";

/// The width of its hidden states, which is what tells the right encoder apart from its smaller
/// and larger relatives in a models directory.
pub const TEXT_ENCODER_WIDTH: u64 = 3584;

/// Pixels to a latent pixel, on each side.
pub const SPATIAL_COMPRESSION: usize = 8;

/// The fewest latent tokens a picture may have to teach the rate model: below this a pass is
/// bound by reading the weights and says nothing about the rate a real picture runs at.
pub const RATE_MODEL_MIN_TOKENS: usize = 64;

/// Which tensor the calibration times: the first block's widest linear.
pub const CALIBRATION_TENSOR: &'static str = "transformer_blocks.0.img_mlp.net.0.proj.weight";

/// The token count the calibration runs: the smallest picture worth generating.
pub const CALIBRATION_TOKENS: usize = 256;

/// The container a picture comes back in.
#[derive(Debug, Clone, Copy, PartialEq, Eq, Structural)]
pub enum ImageFormat {
    Png,
    Jpeg,
    Gif,
    WebP,
    Svg,
}

/// The two files a picture model cannot generate without.
#[derive(Debug, Clone, PartialEq, Eq)]
pub struct Companions {
    pub text_encoder: String,
    pub vae: String,
}

impl Companions {
    /// Both companions, or why the first that is missing could not be found.
    pub fn locate(text_encoder: Result<String, String>, vae: Result<String, String>) -> (found: Result<
        Companions,
        String,
    >)
        ensures
            match (text_encoder, vae) {
                (Ok(t), Ok(v)) => found matches Ok(c) && c.text_encoder == t && c.vae == v,
                (Err(why), _) => found == Err::<Companions, String>(why),
                (Ok(_), Err(why)) => found == Err::<Companions, String>(why),
            },
    {
        match text_encoder {
            Err(why) => Err(why),
            Ok(text_encoder) => match vae {
                Err(why) => Err(why),
                Ok(vae) => Ok(Companions { text_encoder, vae }),
            },
        }
    }
}

/// One linear of the transformer, timed on a device and on the CPU, in nanoseconds.
#[derive(Debug, Clone, Copy)]
pub struct Calibration {
    /// The tensor's shape, for the log line.
    pub in_dim: usize,
    pub out_dim: usize,
    pub n_tokens: usize,
    /// Nothing when no device was offered.
    pub device: Option<u128>,
    pub cpu: u128,
}

impl Calibration {
    pub open spec fn cpu_wins_spec(&self) -> bool {
        self.device matches Some(device) ==> self.cpu <= device
    }

    /// Whether the CPU was at least as fast, or there was nothing to beat.
    pub fn cpu_wins(&self) -> (yes: bool)
        ensures
            yes == self.cpu_wins_spec(),
    {
        match self.device {
            Some(device) => self.cpu <= device,
            None => true,
        }
    }

    /// The time of whichever was faster.
    pub fn winner(&self) -> (nanos: u128)
        ensures
            nanos == if self.cpu_wins_spec() { self.cpu } else { self.device->0 },
            nanos <= self.cpu,
            self.device matches Some(device) ==> nanos <= device,
            nanos == self.cpu || self.device == Some(nanos),
    {
        match self.device {
            Some(device) if device < self.cpu => device,
            _ => self.cpu,
        }
    }
}

/// The calibration of a tensor of a shape from its times.
pub fn calibrate(in_dim: usize, out_dim: usize, device: Option<u128>, cpu: u128) -> (c: Calibration)
    ensures
        c == (Calibration { in_dim, out_dim, n_tokens: CALIBRATION_TOKENS, device, cpu }),
{
    Calibration { in_dim, out_dim, n_tokens: CALIBRATION_TOKENS, device, cpu }
}

/// A `<user>/<repo>:<file>` reference: the directory of the hub cache its repository is under,
/// and the file.
pub open spec fn hub_reference_spec(spec: Seq<char>) -> Option<(Seq<char>, Seq<char>)> {
    match text::first_place(spec, ":"@, 0) {
        None => None,
        Some(colon) => {
            let repo = spec.take(colon);
            match text::first_place(repo, "/"@, 0) {
                None => None,
                Some(slash) => if text::occurs(repo.skip(slash + 1), "/"@) {
                    None
                } else {
                    Some(
                        (
                            "models--"@ + repo.take(slash) + "--"@ + repo.skip(slash + 1),
                            spec.skip(colon + 1),
                        ),
                    )
                },
            }
        },
    }
}

/// Reads an adapter's setting as a `<user>/<repo>:<file>` reference.
pub fn hub_reference(spec: &str) -> (reference: Option<(String, String)>)
    ensures
        match reference {
            Some((dir, file)) => hub_reference_spec(spec@) == Some((dir@, file@)),
            None => hub_reference_spec(spec@) is None,
        },
{
    proof {
        reveal_strlit(":");
        reveal_strlit("/");
    }
    let chars = text::chars_of(spec);
    let len: usize = chars.len();
    let colon: usize = match text::find(&chars, &text::chars_of(":")) {
        Some(at) => at,
        None => {
            return None;
        },
    };
    let repo = text::string_of(&chars, 0, colon);
    assert(repo@ =~= spec@.take(colon as int));
    let repo_chars = text::chars_of(repo.as_str());
    let repo_len: usize = repo_chars.len();
    let slash: usize = match text::find(&repo_chars, &text::chars_of("/")) {
        Some(at) => at,
        None => {
            return None;
        },
    };
    let user = text::string_of(&repo_chars, 0, slash);
    let name = text::string_of(&repo_chars, slash + 1, repo_len);
    assert(user@ =~= repo@.take(slash as int));
    assert(name@ =~= repo@.skip(slash + 1));
    if text::contains(name.as_str(), "/") {
        return None;
    }
    let mut dir = String::new();
    dir.append("models--");
    dir.append(user.as_str());
    dir.append("--");
    dir.append(name.as_str());
    assert(dir@ =~= "models--"@ + user@ + "--"@ + name@);
    let file = text::string_of(&chars, colon + 1, len);
    assert(file@ =~= spec@.skip(colon + 1));
    Some((dir, file))
}

/// Where an adapter is.
#[derive(Debug, Clone, Copy, PartialEq, Eq, Structural)]
pub enum LoraPlace {
    /// At the path as given.
    AsGiven,
    /// At the path under the models directory.
    UnderModels,
    /// In this snapshot of its repository.
    Snapshot(usize),
    /// A reference none of whose snapshots holds the file.
    NotFetched,
    /// Nowhere, and no reference.
    Nowhere,
}

/// The first that is there, at or after `from`.
pub open spec fn first_true(there: Seq<bool>, from: int) -> Option<int>
    decreases there.len() - from,
{
    if from < 0 || from >= there.len() {
        None
    } else if there[from] {
        Some(from)
    } else {
        first_true(there, from + 1)
    }
}

/// Where an adapter's setting points: the path as given, the path under the models directory, or
/// the first snapshot of the repository it refers to that holds the file.
pub fn resolve_lora(spec: &str, as_given: bool, under_models: bool, snapshots: &Vec<bool>) -> (place:
    LoraPlace)
    ensures
        place == if as_given {
            LoraPlace::AsGiven
        } else if under_models {
            LoraPlace::UnderModels
        } else if hub_reference_spec(spec@) is None {
            LoraPlace::Nowhere
        } else {
            match first_true(snapshots@, 0) {
                Some(i) => LoraPlace::Snapshot(i as usize),
                None => LoraPlace::NotFetched,
            }
        },
{
    if as_given {
        return LoraPlace::AsGiven;
    }
    if under_models {
        return LoraPlace::UnderModels;
    }
    if hub_reference(spec).is_none() {
        return LoraPlace::Nowhere;
    }
    let mut i: usize = 0;
    while i < snapshots.len()
        invariant
            i <= snapshots@.len(),
            !as_given,
            !under_models,
            hub_reference_spec(spec@) is Some,
            first_true(snapshots@, 0) == first_true(snapshots@, i as int),
        decreases snapshots.len() - i,
    {
        if snapshots[i] {
            return LoraPlace::Snapshot(i);
        }
        i = i + 1;
    }
    LoraPlace::NotFetched
}

/// Server-wide defaults a request may override. Numbers with a point are single-precision bit
/// patterns.
#[derive(Debug, Clone, PartialEq, Eq)]
pub struct ImageDefaults {
    pub width: usize,
    pub height: usize,
    pub steps: usize,
    pub cfg_scale: u32,
    pub negative_prompt: String,
    pub strength: u32,
    /// The container a picture comes back in when the request names none and no attachment sets
    /// it.
    pub format: ImageFormat,
}

impl Default for ImageDefaults {
    /// The model's own release settings: 1024x1024, 50 steps, guidance of 4.0 against a blank
    /// negative prompt, and a strength of 0.6.
    fn default() -> (d: ImageDefaults)
        ensures
            d.width == 1024,
            d.height == 1024,
            d.steps == 50,
            d.cfg_scale == 0x4080_0000,
            d.negative_prompt@ == " "@,
            d.strength == 0x3f19_999a,
            d.format == ImageFormat::Png,
    {
        ImageDefaults {
            width: 1024,
            height: 1024,
            steps: 50,
            cfg_scale: 0x4080_0000,
            negative_prompt: " ".to_owned(),
            strength: 0x3f19_999a,
            format: ImageFormat::Png,
        }
    }
}

/// A picture to start from.
#[derive(Debug, Clone, PartialEq, Eq)]
pub struct InitImage {
    /// The bytes of a picture file; resized to the request's size.
    pub bytes: Vec<u8>,
    /// How much of the schedule to run, as a single-precision bit pattern.
    pub strength: u32,
}

/// One generation.
#[derive(Debug, Clone, PartialEq, Eq)]
pub struct ImageRequest {
    pub prompt: String,
    /// Nothing takes the server default; an empty text is a blank prompt too.
    pub negative_prompt: Option<String>,
    pub width: usize,
    pub height: usize,
    pub steps: usize,
    /// A single-precision bit pattern; one or less runs the positive prompt alone.
    pub cfg_scale: u32,
    /// Nothing draws one, and the result reports which.
    pub seed: Option<u64>,
    pub format: ImageFormat,
    pub init: Option<InitImage>,
}

/// The denoising loop's passes by operation class, in nanoseconds.
#[derive(Debug, Clone, Copy, PartialEq, Eq, Structural)]
pub struct Stages {
    pub passes: u64,
    pub modulation: u128,
    pub qkv: u128,
    pub attention: u128,
    pub out: u128,
    pub mlp: u128,
    pub other: u128,
    pub lora: u128,
}

/// Where a generation's time went, phase by phase, in nanoseconds.
#[derive(Debug, Clone, Copy, PartialEq, Eq, Structural)]
pub struct Timings {
    /// Encoding the prompts and, where there is one, the attached picture.
    pub encode: u128,
    /// The denoising loop.
    pub denoise: u128,
    /// Unpacking, decoding, and writing the file format.
    pub decode: u128,
    pub stages: Stages,
}

impl Default for Timings {
    fn default() -> (t: Timings)
        ensures
            t.encode == 0,
            t.denoise == 0,
            t.decode == 0,
            t.stages == (Stages {
                passes: 0,
                modulation: 0,
                qkv: 0,
                attention: 0,
                out: 0,
                mlp: 0,
                other: 0,
                lora: 0,
            }),
    {
        Timings {
            encode: 0,
            denoise: 0,
            decode: 0,
            stages: Stages {
                passes: 0,
                modulation: 0,
                qkv: 0,
                attention: 0,
                out: 0,
                mlp: 0,
                other: 0,
                lora: 0,
            },
        }
    }
}

/// A finished picture.
#[derive(Debug, Clone, PartialEq, Eq)]
pub struct GeneratedImage {
    pub bytes: Vec<u8>,
    pub format: ImageFormat,
    pub width: usize,
    pub height: usize,
    pub seed: u64,
    pub steps: usize,
    /// In nanoseconds.
    pub elapsed: u128,
    pub timings: Timings,
}

/// Where a generation is, for a progress bar.
#[derive(Debug, Clone, Copy, PartialEq, Eq, Structural)]
pub struct Progress {
    /// Steps finished so far; nought for the announcement before the first.
    pub step: usize,
    /// The total that will be run.
    pub steps: usize,
    /// Seconds per step so far, as a double-precision bit pattern.
    pub seconds_per_step: u64,
}

/// The whole text a prompt is encoded in.
pub fn prompt_text(prompt: &str) -> (s: String)
    ensures
        s@ == PROMPT_TEMPLATE_PREFIX@ + prompt@ + PROMPT_TEMPLATE_SUFFIX@,
{
    let mut out = String::new();
    out.append(PROMPT_TEMPLATE_PREFIX);
    out.append(prompt);
    out.append(PROMPT_TEMPLATE_SUFFIX);
    out
}

/// Why a prompt could not be encoded.
#[derive(Debug, Clone, Copy, PartialEq, Eq, Structural)]
pub enum PromptError {
    /// The framing's tokens are not where the prompt's begin.
    NotAPrefix,
    /// The encoder did not return a state for every token.
    WrongShape,
    /// Nothing was left of the prompt.
    NoTokens,
}

impl PromptError {
    pub open spec fn message_spec(&self) -> Seq<char> {
        match self {
            PromptError::NotAPrefix =>
                "the prompt template did not tokenize as a prefix of the prompt"@,
            PromptError::WrongShape => "text encoder returned the wrong shape"@,
            PromptError::NoTokens => "the prompt encoded to no tokens"@,
        }
    }

    /// What the user is told.
    pub fn message(&self) -> (s: &'static str)
        ensures
            s@ == self.message_spec(),
    {
        match self {
            PromptError::NotAPrefix =>
                "the prompt template did not tokenize as a prefix of the prompt",
            PromptError::WrongShape => "text encoder returned the wrong shape",
            PromptError::NoTokens => "the prompt encoded to no tokens",
        }
    }
}

/// The tokens that are run through the encoder: the framing's and at most 1024 more, so the
/// suffix goes first on a long prompt. The framing has to tokenize as the beginning of the whole.
pub fn prompt_tokens(prefix: &Vec<u32>, tokens: &Vec<u32>) -> (kept: Result<Vec<u32>, PromptError>)
    requires
        prefix@.len() + MAX_PROMPT_TOKENS <= usize::MAX,
    ensures
        ({
            let starts = prefix@.len() <= tokens@.len() && tokens@.take(prefix@.len() as int)
                == prefix@;
            let room = prefix@.len() + 1024;
            match kept {
                Ok(k) => starts && k@ == if tokens@.len() <= room {
                    tokens@
                } else {
                    tokens@.take(room as int)
                },
                Err(e) => !starts && e == PromptError::NotAPrefix,
            }
        }),
{
    if prefix.len() > tokens.len() {
        return Err(PromptError::NotAPrefix);
    }
    let mut i: usize = 0;
    while i < prefix.len()
        invariant
            i <= prefix@.len() <= tokens@.len(),
            forall|k: int| 0 <= k < i ==> tokens@[k] == prefix@[k],
        decreases prefix.len() - i,
    {
        if tokens[i] != prefix[i] {
            assert(tokens@.take(prefix@.len() as int)[i as int] != prefix@[i as int]);
            return Err(PromptError::NotAPrefix);
        }
        i = i + 1;
    }
    assert(tokens@.take(prefix@.len() as int) =~= prefix@);
    let room: usize = prefix.len() + MAX_PROMPT_TOKENS;
    let mut kept: Vec<u32> = Vec::new();
    let mut j: usize = 0;
    while j < tokens.len() && j < room
        invariant
            j <= tokens@.len(),
            j <= room,
            kept@ == tokens@.take(j as int),
        decreases tokens.len() - j,
    {
        kept.push(tokens[j]);
        j = j + 1;
        assert(kept@ =~= tokens@.take(j as int));
    }
    assert(tokens@.len() <= room ==> tokens@.take(j as int) =~= tokens@);
    Ok(kept)
}

/// The prompt's own states: what the encoder returned for the tokens, without the framing's.
pub fn prompt_states<T: Copy>(hidden: &Vec<T>, prefix: usize, tokens: usize, width: usize) -> (kept:
    Result<Vec<T>, PromptError>)
    requires
        prefix <= tokens,
        tokens * width <= usize::MAX,
    ensures
        match kept {
            Ok(k) => hidden@.len() == tokens * width && k@ == hidden@.skip(prefix * width)
                && k@.len() > 0,
            Err(e) => if hidden@.len() != tokens * width {
                e == PromptError::WrongShape
            } else {
                e == PromptError::NoTokens && hidden@.skip(prefix * width).len() == 0
            },
        },
{
    if hidden.len() != tokens * width {
        return Err(PromptError::WrongShape);
    }
    proof {
        assert(prefix * width <= tokens * width) by (nonlinear_arith)
            requires
                prefix <= tokens,
        ;
    }
    let from: usize = prefix * width;
    let mut out: Vec<T> = Vec::new();
    let mut i: usize = from;
    while i < hidden.len()
        invariant
            from <= i <= hidden@.len(),
            out@ == hidden@.subrange(from as int, i as int),
        decreases hidden.len() - i,
    {
        out.push(hidden[i]);
        i = i + 1;
        assert(out@ =~= hidden@.subrange(from as int, i as int));
    }
    assert(out@ =~= hidden@.skip(from as int));
    if out.len() == 0 {
        return Err(PromptError::NoTokens);
    }
    Ok(out)
}

/// Why a request cannot be run.
#[derive(Debug, Clone, Copy, PartialEq, Eq, Structural)]
pub enum RequestError {
    /// The width and height asked for.
    Size(usize, usize),
    Steps,
    EmptyPrompt,
    /// The width and height of a picture with more tokens than can be counted.
    TooLarge(usize, usize),
}

impl RequestError {
    pub open spec fn message_spec(&self) -> Seq<char> {
        match self {
            RequestError::Size(width, height) =>
                "image size must be a multiple of 16 pixels on each side (got "@
                + text::decimal_spec(*width as nat) + "x"@ + text::decimal_spec(*height as nat)
                + ")"@,
            RequestError::Steps => "steps must be at least 1"@,
            RequestError::EmptyPrompt => "the prompt is empty"@,
            RequestError::TooLarge(width, height) => "image size "@ + text::decimal_spec(
                *width as nat,
            ) + "x"@ + text::decimal_spec(*height as nat) + " is too large"@,
        }
    }

    /// What the user is told.
    pub fn message(&self) -> (s: String)
        ensures
            s@ == self.message_spec(),
    {
        let mut out = String::new();
        match self {
            RequestError::Size(width, height) => {
                out.append("image size must be a multiple of 16 pixels on each side (got ");
                let w = text::decimal(*width as u64);
                out.append(w.as_str());
                out.append("x");
                let h = text::decimal(*height as u64);
                out.append(h.as_str());
                out.append(")");
            },
            RequestError::Steps => {
                out.append("steps must be at least 1");
            },
            RequestError::EmptyPrompt => {
                out.append("the prompt is empty");
            },
            RequestError::TooLarge(width, height) => {
                out.append("image size ");
                let w = text::decimal(*width as u64);
                out.append(w.as_str());
                out.append("x");
                let h = text::decimal(*height as u64);
                out.append(h.as_str());
                out.append(" is too large");
            },
        }
        assert(out@ =~= self.message_spec());
        out
    }
}

/// The sizes a request works out to.
#[derive(Debug, Clone, Copy, PartialEq, Eq, Structural)]
pub struct Grid {
    /// The latent picture's height and width.
    pub h8: usize,
    pub w8: usize,
    /// Rows and columns of tokens.
    pub rows: usize,
    pub cols: usize,
    pub n_tokens: usize,
}

/// A size that is a whole number of tokens on each side, and at least one.
pub open spec fn good_size(width: usize, height: usize) -> bool {
    width >= 16 && height >= 16 && width % 16 == 0 && height % 16 == 0
}

/// Checks a request, in this order: its size, its steps, its prompt, and whether its tokens can
/// be counted.
pub fn check_request(width: usize, height: usize, steps: usize, prompt: &str) -> (checked: Result<
    Grid,
    RequestError,
>)
    ensures
        checked == if !good_size(width, height) {
            Err::<Grid, RequestError>(RequestError::Size(width, height))
        } else if steps == 0 {
            Err(RequestError::Steps)
        } else if text::trim_spec(prompt@).len() == 0 {
            Err(RequestError::EmptyPrompt)
        } else if (width as int / 16) * (height as int / 16) > usize::MAX {
            Err(RequestError::TooLarge(width, height))
        } else {
            Ok(
                Grid {
                    h8: height / 8,
                    w8: width / 8,
                    rows: height / 16,
                    cols: width / 16,
                    n_tokens: ((width as int / 16) * (height as int / 16)) as usize,
                },
            )
        },
{
    let unit: usize = 2 * SPATIAL_COMPRESSION;
    if !(width >= unit && height >= unit && width % unit == 0 && height % unit == 0) {
        return Err(RequestError::Size(width, height));
    }
    if steps == 0 {
        return Err(RequestError::Steps);
    }
    let trimmed = text::trim(prompt);
    if trimmed.as_str().is_empty() {
        return Err(RequestError::EmptyPrompt);
    }
    let h8: usize = height / SPATIAL_COMPRESSION;
    let w8: usize = width / SPATIAL_COMPRESSION;
    let rows: usize = h8 / 2;
    let cols: usize = w8 / 2;
    assert(rows == height / 16 && cols == width / 16);
    assert(cols * rows == rows * cols) by (nonlinear_arith);
    match rows.checked_mul(cols) {
        Some(n_tokens) => Ok(Grid { h8, w8, rows, cols, n_tokens }),
        None => Err(RequestError::TooLarge(width, height)),
    }
}

/// The pattern of one in single precision.
pub const ONE: u32 = 0x3f80_0000;

/// Whether a picture is guided: a scale above one runs the negative prompt too.
pub fn guided(cfg_scale: u32) -> (yes: bool)
    ensures
        yes == ieee::single_greater(cfg_scale, ONE),
{
    ieee::is_single_greater(cfg_scale, ONE)
}

pub open spec fn asked_view(asked: Option<String>) -> Option<Seq<char>> {
    match asked {
        Some(t) => Some(t@),
        None => None,
    }
}

pub open spec fn negative_spec(requested: Option<Seq<char>>, fallback: Seq<char>) -> Seq<char> {
    let asked = match requested {
        Some(t) => t,
        None => fallback,
    };
    if asked.len() == 0 { " "@ } else { asked }
}

/// The text the picture is guided away from: what the request says, else the default, and a
/// space where that is empty.
pub fn negative_text(requested: &Option<String>, fallback: &str) -> (s: String)
    ensures
        s@ == negative_spec(asked_view(*requested), fallback@),
{
    let asked = match requested {
        Some(t) => t.as_str(),
        None => fallback,
    };
    if asked.is_empty() {
        " ".to_owned()
    } else {
        asked.to_owned()
    }
}

/// The seed of a picture: the one asked for, else the clock's.
pub fn choose_seed(requested: Option<u64>, clock: u64) -> (seed: u64)
    ensures
        seed == match requested {
            Some(s) => s,
            None => clock,
        },
{
    match requested {
        Some(s) => s,
        None => clock,
    }
}

/// Where a generation stands.
#[derive(Debug, Clone, Copy, PartialEq, Eq, Structural)]
pub enum Phase {
    /// Encoding the prompt.
    Positive,
    /// Encoding the negative prompt.
    Negative,
    /// Drawing the noise and, where there is one, encoding the attached picture.
    Preparing,
    /// The pass of this step.
    Pass(usize),
    /// The unguided pass of this step.
    Unguided(usize),
    /// Moving the latents along by this step.
    Stepping(usize),
    /// Turning the latents into a picture file.
    Decoding,
    /// Writing the attached picture out again.
    Returning,
    Over,
}

/// What the caller does next.
#[derive(Debug, Clone, Copy, PartialEq, Eq, Structural)]
pub enum Work {
    EncodePositive,
    EncodeNegative,
    Prepare,
    /// Run the transformer on the prompt, at this step's noise level.
    RunPass(usize),
    /// Run it on the negative prompt and guide the first pass by it.
    RunUnguided(usize),
    /// Move the latents from this step's noise level to the next.
    Step(usize),
    Decode,
    /// Write the attached picture's own pixels out, unchanged.
    ReturnAttachment,
    /// The picture is done.
    Finish,
    /// It was cancelled.
    Cancelled,
    /// What was being done failed.
    Failed,
}

/// How the last piece of work went.
#[derive(Debug, Clone, Copy, PartialEq, Eq, Structural)]
pub enum Report {
    Done,
    /// Prepared from an attached picture, to start at this step.
    StartAt(usize),
    Broke,
}

/// A generation under way.
#[derive(Debug, Clone, Copy, PartialEq, Eq, Structural)]
pub struct Generation {
    pub steps: usize,
    pub guided: bool,
    /// The step the schedule is entered at: past the last where the attached picture comes
    /// straight back.
    pub first_step: usize,
    pub phase: Phase,
}

/// What comes after a piece of work, and the progress to report first: the steps done and how
/// many there are.
#[derive(Debug, Clone, PartialEq, Eq)]
pub struct Next {
    pub work: Work,
    pub progress: Option<(usize, usize)>,
}

impl Generation {
    pub open spec fn sound(&self) -> bool {
        match self.phase {
            Phase::Pass(i) | Phase::Stepping(i) => self.first_step <= i < self.steps,
            Phase::Unguided(i) => self.guided && self.first_step <= i < self.steps,
            Phase::Negative => self.guided && self.first_step == 0,
            Phase::Positive | Phase::Preparing => self.first_step == 0,
            _ => true,
        }
    }

    /// How many steps are run.
    pub open spec fn steps_to_run_spec(&self) -> int {
        if self.first_step < self.steps { self.steps - self.first_step } else { 0 }
    }

    /// Going on to step `i`: its pass, the end of the loop, or nothing where it was cancelled.
    pub open spec fn entering(&self, i: int, cancelled: bool) -> (Phase, Work) {
        if i >= self.steps {
            (Phase::Decoding, Work::Decode)
        } else if cancelled {
            (Phase::Over, Work::Cancelled)
        } else {
            (Phase::Pass(i as usize), Work::RunPass(i as usize))
        }
    }

    /// Going on once prepared: from an attached picture entered past the last step, that picture
    /// comes back as it is.
    pub open spec fn prepared(&self, report: Report, cancelled: bool) -> (Phase, Work) {
        match report {
            Report::StartAt(i) => if i >= self.steps {
                (Phase::Returning, Work::ReturnAttachment)
            } else {
                self.entering(i as int, cancelled)
            },
            _ => self.entering(0, cancelled),
        }
    }

    /// Going on once the prompts are encoded.
    pub open spec fn encoded(cancelled: bool) -> (Phase, Work) {
        if cancelled {
            (Phase::Over, Work::Cancelled)
        } else {
            (Phase::Preparing, Work::Prepare)
        }
    }

    /// The phase and work after a report.
    pub open spec fn after(&self, report: Report, cancelled: bool) -> (Phase, Work) {
        if report is Broke {
            (Phase::Over, Work::Failed)
        } else {
            match self.phase {
                Phase::Positive => if self.guided {
                    (Phase::Negative, Work::EncodeNegative)
                } else {
                    Self::encoded(cancelled)
                },
                Phase::Negative => Self::encoded(cancelled),
                Phase::Preparing => self.prepared(report, cancelled),
                Phase::Pass(i) => if self.guided {
                    (Phase::Unguided(i), Work::RunUnguided(i))
                } else {
                    (Phase::Stepping(i), Work::Step(i))
                },
                Phase::Unguided(i) => (Phase::Stepping(i), Work::Step(i)),
                Phase::Stepping(i) => self.entering(i + 1, cancelled),
                Phase::Decoding | Phase::Returning | Phase::Over => (Phase::Over, Work::Finish),
            }
        }
    }

    /// Begins with the prompt. Where a rate is known, the steps asked for are announced before
    /// any of them is run: the wait, before any of it is spent.
    pub fn begin(steps: usize, cfg_scale: u32, rate_known: bool) -> (begun: (Generation, Next))
        ensures
            begun.0.sound(),
            begun.0 == (Generation {
                steps,
                guided: ieee::single_greater(cfg_scale, ONE),
                first_step: 0,
                phase: Phase::Positive,
            }),
            begun.1.work == Work::EncodePositive,
            begun.1.progress == if rate_known {
                Some((0usize, steps))
            } else {
                None
            },
    {
        let g = Generation {
            steps,
            guided: guided(cfg_scale),
            first_step: 0,
            phase: Phase::Positive,
        };
        let progress: Option<(usize, usize)> = if rate_known { Some((0, steps)) } else { None };
        (g, Next { work: Work::EncodePositive, progress })
    }

    fn enter(&self, i: usize, cancelled: bool) -> (to: (Phase, Work))
        ensures
            to == self.entering(i as int, cancelled),
    {
        if i >= self.steps {
            (Phase::Decoding, Work::Decode)
        } else if cancelled {
            (Phase::Over, Work::Cancelled)
        } else {
            (Phase::Pass(i), Work::RunPass(i))
        }
    }

    /// Goes on from a report. Cancellation is looked at once the prompts are encoded and before
    /// every step; progress is reported after every step that was run. A generation that is over
    /// is not gone on with.
    pub fn advance(&mut self, report: Report, cancelled: bool) -> (next: Next)
        requires
            old(self).sound(),
            !(old(self).phase is Over),
        ensures
            final(self).sound(),
            (*final(self), next.work) == advanced(*old(self), report, cancelled),
            next.progress == match old(self).phase {
                Phase::Stepping(i) => if report is Broke {
                    None
                } else {
                    Some(
                        (
                            (i - old(self).first_step + 1) as usize,
                            old(self).steps_to_run_spec() as usize,
                        ),
                    )
                },
                _ => None,
            },
    {
        if let Report::Broke = report {
            self.phase = Phase::Over;
            return Next { work: Work::Failed, progress: None };
        }
        let mut progress: Option<(usize, usize)> = None;
        let (phase, work): (Phase, Work) = match self.phase {
            Phase::Positive => if self.guided {
                (Phase::Negative, Work::EncodeNegative)
            } else if cancelled {
                (Phase::Over, Work::Cancelled)
            } else {
                (Phase::Preparing, Work::Prepare)
            },
            Phase::Negative => if cancelled {
                (Phase::Over, Work::Cancelled)
            } else {
                (Phase::Preparing, Work::Prepare)
            },
            Phase::Preparing => {
                match report {
                    Report::StartAt(i) => {
                        self.first_step = i;
                        if i >= self.steps {
                            (Phase::Returning, Work::ReturnAttachment)
                        } else {
                            self.enter(i, cancelled)
                        }
                    },
                    _ => self.enter(0, cancelled),
                }
            },
            Phase::Pass(i) => if self.guided {
                (Phase::Unguided(i), Work::RunUnguided(i))
            } else {
                (Phase::Stepping(i), Work::Step(i))
            },
            Phase::Unguided(i) => (Phase::Stepping(i), Work::Step(i)),
            Phase::Stepping(i) => {
                progress = Some((i - self.first_step + 1, self.steps - self.first_step));
                self.enter(i + 1, cancelled)
            },
            Phase::Decoding => (Phase::Over, Work::Finish),
            Phase::Returning => (Phase::Over, Work::Finish),
            Phase::Over => (Phase::Over, Work::Finish),
        };
        self.phase = phase;
        Next { work, progress }
    }

    /// How many steps are run.
    pub fn steps_to_run(&self) -> (n: usize)
        ensures
            n == self.steps_to_run_spec(),
    {
        if self.first_step < self.steps { self.steps - self.first_step } else { 0 }
    }
}

/// A cancelled picture is not gone on with: where cancellation is looked at, no further pass is
/// run. The last step's work still ends in a picture.
pub proof fn law_cancelling_runs_no_further_pass(g: Generation, report: Report)
    requires
        g.sound(),
        g.phase is Preparing || g.phase is Stepping,
    ensures
        !(g.after(report, true).1 is RunPass),
{
}

/// Every step is run in turn: behind a step comes the next or, after the last, the decode; and
/// the progress of the last step says that all are done.
pub proof fn law_steps_run_in_turn(g: Generation, i: usize)
    requires
        g.sound(),
        g.phase == Phase::Stepping(i),
    ensures
        i + 1 < g.steps ==> g.after(Report::Done, false) == (
            Phase::Pass((i + 1) as usize),
            Work::RunPass((i + 1) as usize),
        ),
        i + 1 == g.steps ==> g.after(Report::Done, false) == (Phase::Decoding, Work::Decode) && i
            - g.first_step + 1 == g.steps_to_run_spec(),
{
}

/// A generation after `n` pieces of work that went well, uncancelled.
pub open spec fn run_on(g: Generation, n: nat) -> Generation
    decreases n,
{
    if n == 0 {
        g
    } else {
        let before = run_on(g, (n - 1) as nat);
        Generation { phase: before.after(Report::Done, false).0, ..before }
    }
}

/// How many pieces of work a step takes: a pass, a second one under guidance, and the step.
pub open spec fn works_per_step(g: Generation) -> nat {
    if g.guided { 3 } else { 2 }
}

/// From any step on, `k` steps later the loop is at the step `k` further, and behind the last one
/// at the decode: none is left out and none is run twice.
pub proof fn law_every_step_is_run_once(g: Generation, i: usize, k: nat)
    requires
        g.sound(),
        g.phase == Phase::Pass(i),
        i + k <= g.steps,
    ensures
        run_on(g, k * works_per_step(g)) == (Generation {
            phase: if i + k < g.steps {
                Phase::Pass((i + k) as usize)
            } else {
                Phase::Decoding
            },
            ..g
        }),
    decreases k,
{
    if k > 0 {
        law_every_step_is_run_once(g, i, (k - 1) as nat);
        let per = works_per_step(g);
        let n = ((k - 1) * per) as nat;
        assert((k - 1) * per + per == k * per) by (nonlinear_arith);
        reveal_with_fuel(run_on, 4);
        assert(run_on(g, n).phase == Phase::Pass((i + k - 1) as usize));
        assert(run_on(g, n + per) == run_on(g, k * per));
    } else {
        assert(0 * works_per_step(g) == 0);
    }
}

/// A generation and its next work after one report.
pub open spec fn advanced(g: Generation, report: Report, cancelled: bool) -> (Generation, Work) {
    let (phase, work) = g.after(report, cancelled);
    let first_step = match (g.phase, report) {
        (Phase::Preparing, Report::StartAt(i)) => i,
        _ => g.first_step,
    };
    (Generation { phase, first_step, ..g }, work)
}

/// A generation and its next work after any reports, each with whether it was cancelled then.
pub open spec fn worked(g: Generation, reports: Seq<(Report, bool)>) -> (Generation, Work)
    decreases reports.len(),
{
    if reports.len() == 0 {
        (g, Work::EncodePositive)
    } else {
        let (report, cancelled) = reports.last();
        advanced(worked(g, reports.drop_last()).0, report, cancelled)
    }
}

/// The text a piece of work encodes.
pub open spec fn text_read(
    work: Work,
    prompt: Seq<char>,
    negative: Option<Seq<char>>,
    fallback: Seq<char>,
) -> Option<Seq<char>> {
    match work {
        Work::EncodePositive => Some(prompt),
        Work::EncodeNegative => Some(negative_spec(negative, fallback)),
        _ => None,
    }
}

/// The text a piece of work encodes: the prompt, or what the picture is guided away from.
pub fn text_to_encode(
    work: Work,
    prompt: &str,
    negative: &Option<String>,
    fallback: &str,
) -> (read: Option<String>)
    ensures
        match read {
            Some(s) => Some(s@),
            None => None,
        } == text_read(work, prompt@, asked_view(*negative), fallback@),
{
    match work {
        Work::EncodePositive => Some(prompt.to_owned()),
        Work::EncodeNegative => Some(negative_text(negative, fallback)),
        _ => None,
    }
}

/// The negative prompt is read only when guidance is on: without it, two requests that differ in
/// nothing else ask for the same work and the same texts, whatever happens on the way.
pub proof fn law_the_negative_prompt_is_read_only_under_guidance(
    steps: usize,
    reports: Seq<(Report, bool)>,
    prompt: Seq<char>,
    one: Option<Seq<char>>,
    other: Option<Seq<char>>,
    fallback: Seq<char>,
)
    ensures
        ({
            let g = Generation { steps, guided: false, first_step: 0, phase: Phase::Positive };
            let work = worked(g, reports).1;
            &&& !(work is EncodeNegative || work is RunUnguided)
            &&& text_read(work, prompt, one, fallback) == text_read(work, prompt, other, fallback)
        }),
{
    let g = Generation { steps, guided: false, first_step: 0, phase: Phase::Positive };
    lemma_unguided(g, reports);
}

proof fn lemma_unguided(g: Generation, reports: Seq<(Report, bool)>)
    requires
        !g.guided,
        g.phase is Positive,
    ensures
        !worked(g, reports).0.guided,
        !(worked(g, reports).0.phase is Unguided),
        !(worked(g, reports).0.phase is Negative),
        !(worked(g, reports).1 is EncodeNegative),
        !(worked(g, reports).1 is RunUnguided),
    decreases reports.len(),
{
    if reports.len() > 0 {
        lemma_unguided(g, reports.drop_last());
    }
}

/// What the latents are at the start.
#[derive(Debug, Clone, Copy, PartialEq, Eq, Structural)]
pub enum Start {
    /// Noise alone.
    Noise,
    /// The attached picture with this step's noise.
    Mixed(usize),
    /// The attached picture as it is: nothing is run over it.
    Attachment,
}

/// What a picture starts from: an attached one, by its strength and the step it enters the
/// schedule at, or none.
pub open spec fn start_spec(attached: Option<(u32, usize)>, steps: usize) -> Start {
    match attached {
        None => Start::Noise,
        Some((strength, first)) => if first >= steps {
            Start::Attachment
        } else if ieee::single_greater(ONE, strength) {
            Start::Mixed(first)
        } else {
            Start::Noise
        },
    }
}

/// What a picture starts from. A strength of one keeps nothing of the attached picture but its
/// size; one that enters the schedule past its end keeps all of it.
pub fn start_of(attached: Option<(u32, usize)>, steps: usize) -> (start: Start)
    ensures
        start == start_spec(attached, steps),
{
    match attached {
        None => Start::Noise,
        Some((strength, first)) => if first >= steps {
            Start::Attachment
        } else if ieee::is_single_greater(ONE, strength) {
            Start::Mixed(first)
        } else {
            Start::Noise
        },
    }
}

/// A strength of one ignores the attachment: the picture starts from the same as without one,
/// and the same work is asked for.
pub proof fn law_full_strength_ignores_the_attachment(g: Generation, cancelled: bool)
    requires
        g.sound(),
        g.steps > 0,
        g.phase is Preparing,
    ensures
        start_spec(Some((ONE, 0usize)), g.steps) == start_spec(None, g.steps),
        advanced(g, Report::StartAt(0), cancelled) == advanced(g, Report::Done, cancelled),
{
}

/// A picture entered past the last step comes back as it is: no step is run, the next work is to
/// hand the attachment back, and the one after that is to finish.
pub proof fn law_no_strength_returns_the_attachment(
    g: Generation,
    first: usize,
    strength: u32,
    cancelled: bool,
    later: bool,
)
    requires
        g.sound(),
        g.phase is Preparing,
        first >= g.steps,
    ensures
        start_spec(Some((strength, first)), g.steps) is Attachment,
        advanced(g, Report::StartAt(first), cancelled).1 is ReturnAttachment,
        advanced(g, Report::StartAt(first), cancelled).0.steps_to_run_spec() == 0,
        advanced(
            advanced(g, Report::StartAt(first), cancelled).0,
            Report::Done,
            later,
        ).1 is Finish,
{
}

/// Whether a finished loop teaches the rate: it ran, it took time, and the picture was big
/// enough to be bound by arithmetic.
pub fn learns_rate(steps_to_run: usize, denoise: u128, n_tokens: usize) -> (yes: bool)
    ensures
        yes == (steps_to_run > 0 && denoise > 0 && n_tokens >= 64),
{
    steps_to_run > 0 && denoise > 0 && n_tokens >= RATE_MODEL_MIN_TOKENS
}

/// Tells every running and future picture to stop.
pub fn request_shutdown(shutdown: &mut bool)
    ensures
        *final(shutdown),
{
    *shutdown = true;
}

/// Whether the request's own flag, or the server's, says stop.
pub fn cancelled(shutdown: bool, cancel: Option<bool>) -> (yes: bool)
    ensures
        yes == (shutdown || cancel == Some(true)),
{
    shutdown || match cancel {
        Some(flag) => flag,
        None => false,
    }
}

/// What a background generation reports, in order: progress after every step, then exactly one
/// of `Done` or `Error`.
#[derive(Debug, Clone, PartialEq, Eq)]
pub enum ImageEvent {
    Progress(Progress),
    Done(Box<GeneratedImage>),
    Error(String),
}

/// How a background generation ended.
#[derive(Debug, Clone, PartialEq, Eq)]
pub enum Ended {
    Finished(Box<GeneratedImage>),
    Refused(String),
    /// It panicked, with what is known of why.
    Panicked(Option<String>),
}

/// The last event of a background generation.
pub fn last_event(ended: Ended) -> (event: ImageEvent)
    ensures
        match (ended, event) {
            (Ended::Finished(image), ImageEvent::Done(same)) => same == image,
            (Ended::Refused(why), ImageEvent::Error(same)) => same == why,
            (Ended::Panicked(Some(why)), ImageEvent::Error(same)) => same == why,
            (Ended::Panicked(None), ImageEvent::Error(why)) => why@
                == "image generation panicked"@,
            _ => false,
        },
{
    match ended {
        Ended::Finished(image) => ImageEvent::Done(image),
        Ended::Refused(why) => ImageEvent::Error(why),
        Ended::Panicked(Some(why)) => ImageEvent::Error(why),
        Ended::Panicked(None) => ImageEvent::Error("image generation panicked".to_owned()),
    }
}

pub open spec fn width_message(reads: nat, produces: nat) -> Seq<char> {
    "the transformer reads "@ + text::decimal_spec(reads)
        + "-wide text states but the text encoder produces "@ + text::decimal_spec(produces)
}

/// Whether the transformer and the text encoder meet at the width both have to have.
pub fn check_widths(txt_dim: usize, n_embd: usize) -> (checked: Result<(), String>)
    ensures
        checked is Ok <==> txt_dim == TEXT_ENCODER_WIDTH && n_embd == TEXT_ENCODER_WIDTH,
        checked matches Err(why) ==> why@ == width_message(txt_dim as nat, n_embd as nat),
{
    if txt_dim as u64 == TEXT_ENCODER_WIDTH && n_embd as u64 == TEXT_ENCODER_WIDTH {
        return Ok(());
    }
    let mut why = String::new();
    why.append("the transformer reads ");
    let reads = text::decimal(txt_dim as u64);
    why.append(reads.as_str());
    why.append("-wide text states but the text encoder produces ");
    let produces = text::decimal(n_embd as u64);
    why.append(produces.as_str());
    assert(why@ =~= width_message(txt_dim as nat, n_embd as nat));
    Err(why)
}

/// What to do about the merged weights after a load.
#[derive(Debug, Clone, Copy, PartialEq, Eq, Structural)]
pub enum AfterMerge {
    /// Nothing was merged.
    Nothing,
    /// The merge was read from the cache.
    WasCached,
    /// The merge was made now, and there is a cache to write it to.
    WriteCache,
    /// The merge was made now, and there is none.
    NoCache,
}

/// What to do about the merged weights after a load: an adapter that was merged and not found in
/// the cache is written to it.
pub fn after_merge(has_lora: bool, merge: bool, cache: Option<bool>) -> (next: AfterMerge)
    ensures
        next == if !(has_lora && merge) {
            AfterMerge::Nothing
        } else {
            match cache {
                Some(true) => AfterMerge::WasCached,
                Some(false) => AfterMerge::WriteCache,
                None => AfterMerge::NoCache,
            }
        },
{
    if !(has_lora && merge) {
        return AfterMerge::Nothing;
    }
    match cache {
        Some(hit) => if hit { AfterMerge::WasCached } else { AfterMerge::WriteCache },
        None => AfterMerge::NoCache,
    }
}

/// The release's own numbers and texts.
pub proof fn law_the_pipeline_has_the_releases_settings()
    ensures
        PROMPT_TEMPLATE_PREFIX@
            == "<|im_start|>system\nDescribe the image by detailing the color, shape, size, texture, quantity, text, spatial relationships of the objects and background:<|im_end|>\n<|im_start|>user\n"@,
        PROMPT_TEMPLATE_SUFFIX@ == "<|im_end|>\n<|im_start|>assistant\n"@,
        TEXT_ENCODER_ARCHITECTURE@ == "qwen2vl"@,
        CALIBRATION_TENSOR@ == "transformer_blocks.0.img_mlp.net.0.proj.weight"@,
        MAX_PROMPT_TOKENS == 1024,
        TEXT_ENCODER_WIDTH == 3584,
        SPATIAL_COMPRESSION == 8,
        RATE_MODEL_MIN_TOKENS == 64,
        CALIBRATION_TOKENS == 256,
        ONE == 127 * 0x80_0000,
{
}

/// The CPU is taken where there is nothing to beat, and on a tie.
pub proof fn law_a_tie_goes_to_the_cpu(c: Calibration)
    ensures
        c.device is None ==> c.cpu_wins_spec(),
        c.device matches Some(device) ==> (c.cpu_wins_spec() <==> device >= c.cpu),
{
}

/// A reference is a user, a slash, a repository, a colon and a file; it names the directory of
/// the cache its repository is kept in.
pub proof fn law_a_reference_names_its_repository(
    user: Seq<char>,
    repo: Seq<char>,
    file: Seq<char>,
)
    requires
        !user.contains(':') && !user.contains('/'),
        !repo.contains(':') && !repo.contains('/'),
    ensures
        hub_reference_spec(user + seq!['/'] + repo + seq![':'] + file) == Some(
            ("models--"@ + user + "--"@ + repo, file),
        ),
{
    reveal_strlit(":");
    reveal_strlit("/");
    let front = user + seq!['/'] + repo;
    let whole = front + seq![':'] + file;
    assert(!front.contains(':')) by {
        if front.contains(':') {
            let k = choose|k: int| 0 <= k < front.len() && front[k] == ':';
            if k < user.len() {
                assert(user[k] == ':');
            } else if k > user.len() {
                assert(repo[k - user.len() - 1] == ':');
            }
        }
    }
    lemma_first_char(front, ':', ":"@, file);
    assert(whole.take(front.len() as int) =~= front);
    assert(whole.skip(front.len() as int + 1) =~= file);
    lemma_first_char(user, '/', "/"@, repo);
    assert(front.take(user.len() as int) =~= user);
    assert(front.skip(user.len() as int + 1) =~= repo);
    if text::occurs(repo, "/"@) {
        let at = choose|at: int| text::stands_at(repo, "/"@, at);
        assert(repo.subrange(at, at + 1)[0] == '/');
        assert(repo[at] == '/');
    }
}

proof fn lemma_first_char(head: Seq<char>, c: char, mark: Seq<char>, tail: Seq<char>)
    requires
        !head.contains(c),
        mark =~= seq![c],
    ensures
        text::first_place(head + seq![c] + tail, mark, 0) == Some(head.len() as int),
{
    let whole = head + seq![c] + tail;
    let n = head.len() as int;
    text::law_a_search_finds_the_nearest(whole, mark, 0);
    assert(whole.subrange(n, n + 1) =~= mark);
    assert(text::stands_at(whole, mark, n));
    let at = text::first_place(whole, mark, 0)->0;
    if at < n {
        assert(whole.subrange(at, at + 1)[0] == mark[0]);
        assert(head[at] == c);
    }
}

/// What has no colon, or no slash before its first one, or two of them there, is no reference.
pub proof fn law_anything_else_is_no_reference(spec: Seq<char>, repo: Seq<char>, file: Seq<char>)
    ensures
        !spec.contains(':') ==> hub_reference_spec(spec) is None,
        !repo.contains(':') && !repo.contains('/') ==> hub_reference_spec(repo + seq![':'] + file) is None,
        !repo.contains(':') && (exists|i: int, j: int|
            0 <= i < j < repo.len() && repo[i] == '/' && repo[j] == '/') ==> hub_reference_spec(
            repo + seq![':'] + file,
        ) is None,
{
    reveal_strlit(":");
    reveal_strlit("/");
    assert(":"@ =~= seq![':'] && "/"@ =~= seq!['/']);
    text::law_a_search_finds_the_nearest(spec, ":"@, 0);
    if let Some(at) = text::first_place(spec, ":"@, 0) {
        assert(spec.subrange(at, at + 1)[0] == ':');
        assert(spec[at] == ':');
    }
    if !repo.contains(':') {
        lemma_first_char(repo, ':', ":"@, file);
        let whole = repo + seq![':'] + file;
        assert(whole.take(repo.len() as int) =~= repo);
        text::law_a_search_finds_the_nearest(repo, "/"@, 0);
        if let Some(slash) = text::first_place(repo, "/"@, 0) {
            assert(repo.subrange(slash, slash + 1)[0] == '/');
            assert(repo[slash] == '/');
            if exists|i: int, j: int|
                0 <= i < j < repo.len() && repo[i] == '/' && repo[j] == '/' {
                let (i, j) = choose|i: int, j: int|
                    0 <= i < j < repo.len() && repo[i] == '/' && repo[j] == '/';
                if i < slash {
                    assert(repo.subrange(i, i + 1) =~= "/"@);
                    assert(text::stands_at(repo, "/"@, i));
                }
                let rest = repo.skip(slash + 1);
                assert(rest[j - slash - 1] == '/');
                assert(rest.subrange(j - slash - 1, j - slash) =~= "/"@);
                assert(text::stands_at(rest, "/"@, j - slash - 1));
            }
        }
    }
}

/// The first snapshot that holds the file is taken.
pub proof fn law_the_first_that_is_there_is_taken(there: Seq<bool>, from: int)
    requires
        0 <= from,
    ensures
        match first_true(there, from) {
            Some(i) => from <= i < there.len() && there[i] && forall|k: int|
                from <= k < i ==> !#[trigger] there[k],
            None => forall|k: int| from <= k < there.len() ==> !#[trigger] there[k],
        },
    decreases there.len() - from,
{
    if from < there.len() {
        law_the_first_that_is_there_is_taken(there, from + 1);
    }
}

/// A picture is a whole number of sixteen-pixel tokens on each side, one at least.
pub proof fn law_a_size_is_whole_tokens(width: usize, height: usize)
    ensures
        good_size(width, height) <==> width > 0 && height > 0 && 16 * (width as int / 16) == width
            && 16 * (height as int / 16) == height,
{
}

/// The request's own negative prompt is read where there is one, else the default; and never an
/// empty text.
pub proof fn law_a_negative_prompt_is_never_empty(asked: Seq<char>, fallback: Seq<char>)
    ensures
        asked.len() > 0 ==> negative_spec(Some(asked), fallback) == asked,
        asked.len() == 0 ==> negative_spec(Some(asked), fallback) == " "@,
        fallback.len() > 0 ==> negative_spec(None, fallback) == fallback,
        fallback.len() == 0 ==> negative_spec(None, fallback) == " "@,
{
}

/// What broke is over, wherever it did.
pub proof fn law_what_broke_is_over(g: Generation, cancelled: bool)
    ensures
        g.after(Report::Broke, cancelled) == (Phase::Over, Work::Failed),
{
}

/// The prompts come first, the negative one only under guidance; then the preparation, unless
/// the picture was cancelled by then; then the first step of the schedule, or the one an attached
/// picture enters at.
pub proof fn law_a_picture_begins_with_its_prompts(g: Generation, i: usize, cancelled: bool)
    ensures
        g.phase is Positive && g.guided ==> g.after(Report::Done, cancelled) == (
            Phase::Negative,
            Work::EncodeNegative,
        ),
        (g.phase is Positive && !g.guided || g.phase is Negative) ==> g.after(Report::Done, false)
            == (Phase::Preparing, Work::Prepare) && g.after(Report::Done, true) == (
            Phase::Over,
            Work::Cancelled,
        ),
        g.phase is Preparing && g.steps > 0 ==> g.after(Report::Done, false) == (
            Phase::Pass(0),
            Work::RunPass(0),
        ) && g.after(Report::Done, true) == (Phase::Over, Work::Cancelled),
        g.phase is Preparing && i < g.steps ==> g.after(Report::StartAt(i), false) == (
            Phase::Pass(i),
            Work::RunPass(i),
        ) && g.after(Report::StartAt(i), true) == (Phase::Over, Work::Cancelled),
        g.phase is Preparing && i >= g.steps ==> g.after(Report::StartAt(i), cancelled) == (
            Phase::Returning,
            Work::ReturnAttachment,
        ),
{
}

/// A step is its pass, a second one where the picture is guided, and the move to the next noise
/// level; it is not cancelled in between. Behind it a cancelled picture ends, unless that was
/// the last step.
pub proof fn law_a_step_is_its_passes_and_the_move(g: Generation, i: usize, cancelled: bool)
    requires
        g.sound(),
    ensures
        g.phase == Phase::Pass(i) && g.guided ==> g.after(Report::Done, cancelled) == (
            Phase::Unguided(i),
            Work::RunUnguided(i),
        ),
        g.phase == Phase::Pass(i) && !g.guided ==> g.after(Report::Done, cancelled) == (
            Phase::Stepping(i),
            Work::Step(i),
        ),
        g.phase == Phase::Unguided(i) ==> g.after(Report::Done, cancelled) == (
            Phase::Stepping(i),
            Work::Step(i),
        ),
        g.phase == Phase::Stepping(i) && i + 1 < g.steps ==> g.after(Report::Done, true) == (
            Phase::Over,
            Work::Cancelled,
        ),
        g.phase == Phase::Stepping(i) && i + 1 == g.steps ==> g.after(Report::Done, cancelled) == (
            Phase::Decoding,
            Work::Decode,
        ),
        g.phase is Decoding || g.phase is Returning ==> g.after(Report::Done, cancelled) == (
            Phase::Over,
            Work::Finish,
        ),
        g.first_step <= g.steps ==> g.steps_to_run_spec() == g.steps - g.first_step,
        g.first_step >= g.steps ==> g.steps_to_run_spec() == 0,
{
}

/// An attached picture keeps something of itself exactly where its strength is below one and
/// there is a step left to run; a strength that is no number keeps nothing.
pub proof fn law_an_attachment_is_mixed_below_full_strength(
    strength: u32,
    first: usize,
    steps: usize,
)
    requires
        first < steps,
    ensures
        strength < 0x3f80_0000 ==> start_spec(Some((strength, first)), steps) == Start::Mixed(
            first,
        ),
        0x3f80_0000 <= strength < 0x8000_0000 ==> start_spec(Some((strength, first)), steps)
            == Start::Noise,
        start_spec(None, steps) == Start::Noise,
{
    ieee::law_singles_compare_as_numbers(ONE, strength);
}

/// A message tells the width before the height, and what is read before what is produced.
pub proof fn law_a_message_tells_its_numbers_in_turn(width: usize, height: usize)
    ensures
        ({
            let (w, h) = (text::decimal_spec(width as nat), text::decimal_spec(height as nat));
            let read = width_message(width as nat, height as nat);
            &&& text::ends(
                RequestError::Size(width, height).message_spec(),
                "(got "@ + w + "x"@ + h + ")"@,
            )
            &&& text::begins(
                RequestError::TooLarge(width, height).message_spec(),
                "image size "@ + w + "x"@ + h + " "@,
            )
            &&& text::begins(read, "the transformer reads "@ + w + "-wide "@)
            &&& text::ends(read, " the text encoder produces "@ + h)
        }),
{
    reveal_strlit("image size must be a multiple of 16 pixels on each side (got ");
    reveal_strlit("(got ");
    reveal_strlit("image size ");
    reveal_strlit(" is too large");
    reveal_strlit(" ");
    reveal_strlit("-wide ");
    reveal_strlit("-wide text states but the text encoder produces ");
    reveal_strlit(" the text encoder produces ");
    let (w, h) = (text::decimal_spec(width as nat), text::decimal_spec(height as nat));
    let size = RequestError::Size(width, height).message_spec();
    let large = RequestError::TooLarge(width, height).message_spec();
    let read = width_message(width as nat, height as nat);
    let got = "(got "@ + w + "x"@ + h + ")"@;
    assert(size.subrange(size.len() - got.len(), size.len() as int) =~= got);
    let large_start = "image size "@ + w + "x"@ + h + " "@;
    assert(large.subrange(0, large_start.len() as int) =~= large_start);
    let read_start = "the transformer reads "@ + w + "-wide "@;
    assert(read.subrange(0, read_start.len() as int) =~= read_start);
    let read_end = " the text encoder produces "@ + h;
    assert(read.subrange(read.len() - read_end.len(), read.len() as int) =~= read_end);
}

} // verus!
