use orangu::image::{
    after_merge, calibrate, cancelled, check_request, check_widths, choose_seed, guided,
    hub_reference, last_event, learns_rate, negative_text, prompt_states, prompt_text,
    prompt_tokens, request_shutdown, resolve_lora, start_of, text_to_encode, AfterMerge, Calibration, Companions, Ended,
    Generation, GeneratedImage, ImageDefaults, ImageEvent, ImageFormat, LoraPlace, PromptError,
    Report, RequestError, Start, Timings, Work, CALIBRATION_TOKENS, MAX_PROMPT_TOKENS,
    PROMPT_TEMPLATE_PREFIX, PROMPT_TEMPLATE_SUFFIX, RATE_MODEL_MIN_TOKENS,
};
use orangu::latent::{pack_latent, unpack_latent, Z_DIM};
use orangu::prefill_backend::{
    choice, cpu_for_prompts, needs_probe, PrefillBackend,
};
use orangu::scheduler::Noise;

#[test]
fn packing_is_a_bijection_with_the_diffusers_feature_order() {
    let (h8, w8) = (4, 6);
    let z: Vec<f32> = (0..h8 * w8 * Z_DIM).map(|i| i as f32).collect();
    let tokens = pack_latent(&z, h8, w8);
    assert_eq!(tokens.len(), (h8 / 2) * (w8 / 2) * 64);
    // Token (0,0), channel c=1, dy=1, dx=0 — feature c*4 + dy*2 + dx — is pixel (y=1, x=0)
    // channel 1.
    let (c, dy, dx, y, x) = (1, 1, 0, 1, 0);
    assert_eq!(tokens[c * 4 + dy * 2 + dx], z[(y * w8 + x) * Z_DIM + c]);
    // Token (row 1, col 2) of the 2x3 grid sits at pixels (2..4, 4..6).
    let (row, col, cols) = (1, 2, 3);
    let t = &tokens[(row * cols + col) * 64..(row * cols + col + 1) * 64];
    assert_eq!(t[5 * 4 + 3], z[(3 * w8 + 5) * Z_DIM + 5]);
    assert_eq!(unpack_latent(&tokens, h8, w8, 0.0), z);
}

#[test]
fn the_prompt_template_is_diffusers_own() {
    // The exact string, since the encoder's hidden states depend on it and a changed word would
    // silently condition every picture on different context.
    assert!(PROMPT_TEMPLATE_PREFIX.starts_with("<|im_start|>system\nDescribe the image by detailing the color, shape, size, texture, quantity, text, spatial relationships of the objects and background:<|im_end|>\n<|im_start|>user\n"));
    assert_eq!(PROMPT_TEMPLATE_SUFFIX, "<|im_end|>\n<|im_start|>assistant\n");
    assert_eq!(
        prompt_text("a cat"),
        format!("{PROMPT_TEMPLATE_PREFIX}a cat{PROMPT_TEMPLATE_SUFFIX}")
    );
}

#[test]
fn a_seed_gives_one_sequence() {
    let mut a = Noise::seeded(7);
    let mut b = Noise::seeded(7);
    let mut c = Noise::seeded(8);
    let (x, y, z): (Vec<u64>, Vec<u64>, Vec<u64>) = (
        (0..100).map(|_| a.next_u64()).collect(),
        (0..100).map(|_| b.next_u64()).collect(),
        (0..100).map(|_| c.next_u64()).collect(),
    );
    assert_eq!(x, y);
    assert_ne!(x, z);
    assert_eq!(x[..3], [12923355070828475994, 5142052590334782674, 15488392906492639638]);
    let mut d = Noise::seeded(7);
    assert_eq!(d.next_unit(), 12923355070828475994 / 2048 + 1);
}

#[test]
fn requests_are_refused_by_what_is_wrong_with_them() {
    let grid = check_request(1024, 512, 8, "a cat").unwrap();
    assert_eq!((grid.w8, grid.h8), (128, 64));
    assert_eq!((grid.cols, grid.rows), (64, 32));
    assert_eq!(grid.n_tokens, 2048);
    assert_eq!(check_request(1000, 512, 8, "a cat"), Err(RequestError::Size(1000, 512)));
    assert_eq!(check_request(0, 512, 8, "a cat"), Err(RequestError::Size(0, 512)));
    assert_eq!(check_request(64, 64, 0, "a cat"), Err(RequestError::Steps));
    assert_eq!(check_request(64, 64, 8, "  \n"), Err(RequestError::EmptyPrompt));
    // However large the sides are, what is wrong with the request comes first.
    let huge = usize::MAX / 16 * 16;
    assert_eq!(check_request(huge, huge + 1, 8, "a cat"), Err(RequestError::Size(huge, huge + 1)));
    assert_eq!(check_request(huge, huge, 0, "a cat"), Err(RequestError::Steps));
    assert_eq!(check_request(huge, huge, 8, " "), Err(RequestError::EmptyPrompt));
    let large = check_request(huge, huge, 8, "a cat").unwrap_err();
    assert_eq!(large, RequestError::TooLarge(huge, huge));
    assert_eq!(large.message(), format!("image size {huge}x{huge} is too large"));
    assert!(RequestError::Size(1000, 512).message().contains("1000"));
}

#[test]
fn prompts_keep_what_follows_the_template() {
    assert_eq!(prompt_tokens(&vec![1, 2], &vec![1, 2, 3, 4]).unwrap(), vec![1, 2, 3, 4]);
    assert_eq!(prompt_tokens(&vec![1, 2], &vec![1, 3, 4]), Err(PromptError::NotAPrefix));
    let long: Vec<u32> = (0..3000).collect();
    assert_eq!(prompt_tokens(&vec![0, 1], &long).unwrap().len(), 2 + MAX_PROMPT_TOKENS);
    assert_eq!(prompt_states(&vec![1, 1, 2, 2, 3, 3], 1, 3, 2).unwrap(), vec![2, 2, 3, 3]);
    assert_eq!(prompt_states(&vec![1, 1, 2], 1, 3, 2), Err(PromptError::WrongShape));
    assert_eq!(prompt_states(&vec![1, 1], 1, 1, 2), Err(PromptError::NoTokens));
}

#[test]
fn guidance_needs_a_scale_above_one() {
    assert!(guided(4.0f32.to_bits()));
    assert!(!guided(1.0f32.to_bits()));
    assert!(!guided(f32::NAN.to_bits()));
    assert_eq!(negative_text(&None, " "), " ");
    assert_eq!(negative_text(&Some("blurry".to_string()), " "), "blurry");
    assert_eq!(negative_text(&Some(String::new()), "blurry"), " ");
    assert_eq!(choose_seed(Some(5), 9), 5);
    assert_eq!(choose_seed(None, 9), 9);
}

#[test]
fn a_generation_runs_its_steps_in_turn() {
    let (mut g, first) = Generation::begin(2, 4.0f32.to_bits(), false);
    assert_eq!(first.work, Work::EncodePositive);
    assert_eq!(first.progress, None);
    assert_eq!(g.advance(Report::Done, false).work, Work::EncodeNegative);
    assert_eq!(g.advance(Report::Done, false).work, Work::Prepare);
    assert_eq!(g.advance(Report::StartAt(0), false).work, Work::RunPass(0));
    assert_eq!(g.steps_to_run(), 2);
    assert_eq!(g.advance(Report::Done, false).work, Work::RunUnguided(0));
    assert_eq!(g.advance(Report::Done, false).work, Work::Step(0));
    let next = g.advance(Report::Done, false);
    assert_eq!(next.work, Work::RunPass(1));
    assert_eq!(next.progress, Some((1, 2)));
    g.advance(Report::Done, false);
    g.advance(Report::Done, false);
    let next = g.advance(Report::Done, false);
    assert_eq!(next.work, Work::Decode);
    assert_eq!(next.progress, Some((2, 2)));
    assert_eq!(g.advance(Report::Done, false).work, Work::Finish);
}

#[test]
fn a_cancelled_generation_runs_no_further_pass() {
    let (mut g, _) = Generation::begin(3, 1.0f32.to_bits(), true);
    assert_eq!(g.advance(Report::Done, false).work, Work::Prepare);
    assert_eq!(g.advance(Report::StartAt(1), false).work, Work::RunPass(1));
    assert_eq!(g.advance(Report::Done, false).work, Work::Step(1));
    assert_eq!(g.advance(Report::Done, true).work, Work::Cancelled);
    let (mut g, _) = Generation::begin(3, 1.0f32.to_bits(), true);
    assert_eq!(g.advance(Report::Broke, false).work, Work::Failed);
}

#[test]
fn the_wait_is_announced_where_a_rate_is_known() {
    let (_, first) = Generation::begin(8, 1.0f32.to_bits(), true);
    assert_eq!(first.progress, Some((0, 8)));
}

#[test]
fn strength_nought_returns_the_attachment_and_one_ignores_it() {
    assert_eq!(start_of(None, 20), Start::Noise);
    assert_eq!(start_of(Some((1.0f32.to_bits(), 0)), 20), Start::Noise);
    assert_eq!(start_of(Some((0.6f32.to_bits(), 8)), 20), Start::Mixed(8));
    assert_eq!(start_of(Some((0.0f32.to_bits(), 20)), 20), Start::Attachment);
    let (mut g, _) = Generation::begin(20, 1.0f32.to_bits(), false);
    assert_eq!(g.advance(Report::Done, false).work, Work::Prepare);
    assert_eq!(g.advance(Report::StartAt(20), false).work, Work::ReturnAttachment);
    assert_eq!(g.steps_to_run(), 0);
    assert_eq!(g.advance(Report::Done, false).work, Work::Finish);
}

#[test]
fn only_the_prompts_are_encoded() {
    let negative = Some("blurry".to_string());
    let read = |work| text_to_encode(work, "a cat", &negative, "dull");
    assert_eq!(read(Work::EncodePositive).unwrap(), "a cat");
    assert_eq!(read(Work::EncodeNegative).unwrap(), "blurry");
    assert_eq!(read(Work::Prepare), None);
}

#[test]
fn stopping_the_server_stops_every_picture() {
    let mut shutdown = false;
    assert!(!cancelled(shutdown, None));
    assert!(!cancelled(shutdown, Some(false)));
    assert!(cancelled(shutdown, Some(true)));
    request_shutdown(&mut shutdown);
    assert!(cancelled(shutdown, None));
}

#[test]
fn the_faster_place_wins_the_calibration() {
    let c = calibrate(3, 5, Some(100), 80);
    assert_eq!(c.n_tokens, CALIBRATION_TOKENS);
    assert!(c.cpu_wins());
    assert_eq!(c.winner(), 80);
    let c = Calibration { device: Some(80), cpu: 100, ..c };
    assert!(!c.cpu_wins());
    assert_eq!(c.winner(), 80);
    let c = calibrate(3, 5, None, 80);
    assert!(c.cpu_wins());
}

#[test]
fn adapters_are_looked_for_in_turn() {
    assert_eq!(resolve_lora("a.safetensors", true, true, &vec![]), LoraPlace::AsGiven);
    assert_eq!(resolve_lora("a.safetensors", false, true, &vec![]), LoraPlace::UnderModels);
    assert_eq!(
        hub_reference("org/name:file.safetensors"),
        Some(("models--org--name".to_string(), "file.safetensors".to_string()))
    );
    assert_eq!(hub_reference("file.safetensors"), None);
    let spec = "org/name:file.safetensors";
    assert_eq!(resolve_lora(spec, false, false, &vec![false, true]), LoraPlace::Snapshot(1));
    assert_eq!(resolve_lora(spec, false, false, &vec![false]), LoraPlace::NotFetched);
    assert_eq!(resolve_lora("nothing", false, false, &vec![]), LoraPlace::Nowhere);
}

#[test]
fn the_first_missing_companion_is_the_one_named() {
    let found = Companions::locate(Ok("e".to_string()), Ok("v".to_string())).unwrap();
    assert_eq!((found.text_encoder.as_str(), found.vae.as_str()), ("e", "v"));
    let missing = Companions::locate(Err("no e".to_string()), Err("no v".to_string()));
    assert_eq!(missing, Err("no e".to_string()));
    let missing = Companions::locate(Ok("e".to_string()), Err("no v".to_string()));
    assert_eq!(missing, Err("no v".to_string()));
}

#[test]
fn defaults_are_the_models_own_settings() {
    let d = ImageDefaults::default();
    assert_eq!((d.width, d.height, d.steps), (1024, 1024, 50));
    assert_eq!(f32::from_bits(d.cfg_scale), 4.0);
    assert_eq!(f32::from_bits(d.strength), 0.6);
    assert_eq!(d.negative_prompt, " ");
    assert_eq!(d.format, ImageFormat::Png);
}

#[test]
fn a_background_generation_ends_in_one_event() {
    let image = GeneratedImage {
        bytes: vec![1],
        format: ImageFormat::Jpeg,
        width: 16,
        height: 16,
        seed: 1,
        steps: 2,
        elapsed: 3,
        timings: Timings::default(),
    };
    assert_eq!(
        last_event(Ended::Finished(Box::new(image.clone()))),
        ImageEvent::Done(Box::new(image))
    );
    assert_eq!(
        last_event(Ended::Refused("no".to_string())),
        ImageEvent::Error("no".to_string())
    );
    assert_eq!(
        last_event(Ended::Panicked(None)),
        ImageEvent::Error("image generation panicked".to_string())
    );
}

#[test]
fn widths_have_to_agree() {
    assert!(check_widths(3584, 3584).is_ok());
    assert_eq!(
        check_widths(3584, 9).unwrap_err(),
        "the transformer reads 3584-wide text states but the text encoder produces 9"
    );
    assert_eq!(after_merge(false, true, None), AfterMerge::Nothing);
    assert_eq!(after_merge(true, false, None), AfterMerge::Nothing);
    assert_eq!(after_merge(true, true, Some(true)), AfterMerge::WasCached);
    assert_eq!(after_merge(true, true, Some(false)), AfterMerge::WriteCache);
    assert_eq!(after_merge(true, true, None), AfterMerge::NoCache);
    assert!(learns_rate(1, 1, RATE_MODEL_MIN_TOKENS));
    assert!(!learns_rate(0, 1, RATE_MODEL_MIN_TOKENS));
    assert!(!learns_rate(1, 1, RATE_MODEL_MIN_TOKENS - 1));
}

#[test]
fn prompts_go_where_they_are_asked_to() {
    let mut stored = 0u8;
    for wanted in [PrefillBackend::Cpu, PrefillBackend::Auto, PrefillBackend::Device] {
        orangu::prefill_backend::set(&mut stored, wanted);
        assert_eq!(choice(stored, false), wanted);
    }
    assert_eq!(PrefillBackend::default(), PrefillBackend::Device);
    assert!(needs_probe(true, PrefillBackend::Auto));
    assert!(!needs_probe(true, PrefillBackend::Cpu));
    // Seconds on the device, then on the CPU.
    let (fast, slow) = (1.0f64.to_bits(), 2.0f64.to_bits());
    assert!(cpu_for_prompts(true, PrefillBackend::Auto, slow, fast));
    assert!(!cpu_for_prompts(true, PrefillBackend::Auto, fast, slow));
    assert!(cpu_for_prompts(true, PrefillBackend::Cpu, fast, slow));
    assert!(!cpu_for_prompts(true, PrefillBackend::Device, slow, fast));
    assert!(!cpu_for_prompts(false, PrefillBackend::Cpu, slow, fast));
    assert_eq!(choice(0, true), PrefillBackend::Cpu);
}
