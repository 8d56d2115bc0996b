use orangu::clock::{
    choose_family, choose_memory, ClockHold, Opening, QueueFamily, Setup, Turn,
    HOST_VISIBLE_COHERENT, OPENING,
};
use orangu::format::{format_bytes, format_duration_rough};
use orangu::graph_status::{GraphBuildStatus, ScanActivity};
use orangu::text::{
    ascii_lowercase, ascii_uppercase, before, contains, decimal, ends_with, join, parse_usize,
    signed_decimal, sorted, starts_with, trim, trim_end,
};

fn rough(seconds: f64) -> String {
    format_duration_rough(seconds.to_bits())
}

#[test]
fn rough_durations_read_like_speech() {
    assert_eq!(rough(0.0), "0 s");
    assert_eq!(rough(41.6), "42 s");
    assert_eq!(rough(61.0), "2 min");
    assert_eq!(rough(6.0 * 60.0), "6 min");
    assert_eq!(rough(3600.0), "1 h");
    assert_eq!(rough(4800.0), "1 h 20 min");
}

#[test]
fn odd_durations_are_still_durations() {
    assert_eq!(rough(-5.0), "0 s");
    assert_eq!(rough(f64::NAN), "0 s");
    assert_eq!(rough(0.49999999999999994), "0 s");
    assert_eq!(rough(0.5), "1 s");
    assert_eq!(rough(59.5), "1 min");
    assert_eq!(rough(1.0e-310), "0 s");
    let hours = |n: u64| {
        let minutes = n.div_ceil(60);
        if minutes % 60 == 0 {
            format!("{} h", minutes / 60)
        } else {
            format!("{} h {} min", minutes / 60, minutes % 60)
        }
    };
    for s in [1.0e9, 1.0e15, 9007199254740993.0, 1.0e19, f64::INFINITY, f64::MAX] {
        assert_eq!(rough(s), hours(s.round() as u64));
    }
}

#[test]
fn formats_byte_sizes() {
    assert_eq!(format_bytes(0), "0 B");
    assert_eq!(format_bytes(512), "512 B");
    assert_eq!(format_bytes(1024), "1.00 KiB");
    assert_eq!(format_bytes(1024 * 1024 * 5), "5.00 MiB");
    assert_eq!(format_bytes(4_929_003_520), "4.59 GiB");
}

#[test]
fn byte_sizes_are_rounded_as_numbers_are() {
    let units = ["B", "KiB", "MiB", "GiB", "TiB", "PiB"];
    let plain = |bytes: u64| {
        let mut value = bytes as f64;
        let mut unit = 0;
        while value >= 1024.0 && unit < 5 {
            value /= 1024.0;
            unit += 1;
        }
        format!("{value:.2} {}", units[unit])
    };
    let mut n = 1024u64;
    for _ in 0..4000 {
        assert_eq!(format_bytes(n), plain(n), "{n}");
        n = n.wrapping_mul(6364136223846793005).wrapping_add(1442695040888963407) | 1024;
    }
    for n in [1023, 1029, 1048575, 1048576, 1076, u64::MAX, u64::MAX - 1024, 1 << 53] {
        if n >= 1024 {
            assert_eq!(format_bytes(n), plain(n), "{n}");
        }
    }
}

#[test]
fn scan_activity_tracks_running_scans() {
    let mut activity = ScanActivity::default();
    assert!(!activity.is_scanning());

    let outer = activity.begin();
    assert!(activity.is_scanning());
    {
        let inner = activity.begin();
        assert!(activity.is_scanning());
        activity.end(inner);
    }
    // The inner scan ended; the outer one is still running.
    assert!(activity.is_scanning());
    activity.end(outer);
    assert!(!activity.is_scanning());
    assert_eq!(GraphBuildStatus::default(), GraphBuildStatus::Building);
}

#[test]
fn scans_can_end_in_any_order() {
    let mut activity = ScanActivity::default();
    let (a, b) = (activity.begin(), activity.begin());
    activity.end(a);
    let c = activity.begin();
    activity.end(b);
    assert!(activity.is_scanning());
    activity.end(c);
    assert!(!activity.is_scanning());
}

#[test]
fn text_is_taken_apart_by_characters() {
    assert_eq!(trim("  a b\u{3000}"), "a b");
    assert_eq!(trim_end("  a \n"), "  a");
    assert!(contains("héllo", "llo"));
    assert!(!contains("héllo", "lo!"));
    assert!(starts_with("abc", "ab"));
    assert!(ends_with("abc", "bc"));
    assert_eq!(ascii_lowercase("ABé"), "abé");
    assert_eq!(ascii_uppercase("abé"), "ABé");
    assert_eq!(decimal(u64::MAX), u64::MAX.to_string());
    assert_eq!(signed_decimal(i64::MIN), i64::MIN.to_string());
    assert_eq!(parse_usize("+12"), Some(12));
    assert_eq!(parse_usize("12x"), None);
    assert_eq!(parse_usize(""), None);
    assert_eq!(parse_usize("99999999999999999999999"), None);
    assert!(before("a", "b"));
    assert!(before("a", "ab"));
    assert!(!before("b", "a"));
    let words = |list: &[&str]| list.iter().map(|s| s.to_string()).collect::<Vec<_>>();
    assert_eq!(sorted(words(&["b", "a", "c", "a"])), words(&["a", "a", "b", "c"]));
    assert_eq!(join(&words(&["a", "b"]), ", "), "a, b");
}

#[test]
fn a_compute_family_is_preferred_to_a_shared_one() {
    let family = |compute, graphics, queue_count| QueueFamily { compute, graphics, queue_count };
    let both = [family(true, true, 1), family(false, true, 1), family(true, false, 1)];
    assert_eq!(choose_family(&both).map(|c| c.0), Some(2));
    assert_eq!(choose_family(&[family(false, true, 1)]), None);
    let flags = [1, HOST_VISIBLE_COHERENT, HOST_VISIBLE_COHERENT | 1];
    assert_eq!(choose_memory(&flags, 0b111), Some(1));
    assert_eq!(choose_memory(&flags, 0b101), Some(2));
    assert_eq!(choose_memory(&flags, 0b001), None);
}

#[test]
fn the_clock_spins_only_while_it_is_held() {
    let mut hold = ClockHold::new();
    assert_eq!(hold.run(false), Turn::Wait);
    hold.arm();
    assert_eq!(hold.run(false), Turn::Spin);
    hold.disarm();
    assert_eq!(hold.run(false), Turn::Wait);
    hold.stop();
    assert_eq!(hold.run(false), Turn::Exit);
    assert!(Setup::CreateFence.failure("lost").contains("lost"));
}

#[test]
fn the_holder_is_opened_step_by_step() {
    let mut opening = Opening::new();
    assert_eq!(opening.step(), Some(Setup::CreateDevice));
    assert_eq!(
        opening.advance(Some("out of memory")),
        Err("create_device: out of memory".to_string())
    );
    // A failed step is not gone past.
    assert_eq!(opening.step(), Some(Setup::CreateDevice));
    let mut buffers = 0;
    while let Some(setup) = opening.step() {
        assert!(!opening.is_open());
        if setup == Setup::CreateBuffer {
            buffers += 1;
        }
        opening.advance(None).unwrap();
    }
    assert!(opening.is_open());
    assert_eq!(buffers, 2);
    assert_eq!(OPENING[18], Setup::CreateFence);
}
