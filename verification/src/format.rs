//! Human-readable sizes and waits.

use vstd::prelude::*;
use vstd::string::*;
use vstd::arithmetic::power2::pow2;
use crate::text;

verus! {

/// The last place a number keeps when it is held to 53 bits: one below two to the fifty-third,
/// and twice as much for every bit above.
pub open spec fn last_place(n: int, place: int) -> int
    decreases 0x1000 - place,
{
    if place < 1 || place >= 0x800 || n / place < 0x20_0000_0000_0000 {
        place
    } else {
        last_place(n, 2 * place)
    }
}

/// A quotient to the nearest whole number, to the even one on a tie.
pub open spec fn nearest_even(n: int, d: int) -> int {
    let (q, r) = (n / d, n % d);
    if 2 * r > d || (2 * r == d && q % 2 == 1) { q + 1 } else { q }
}

/// A byte count as double precision holds it.
pub open spec fn held(bytes: u64) -> int {
    let place = last_place(bytes as int, 1);
    nearest_even(bytes as int, place) * place
}

/// The unit a size is shown in, as a power of 1024: the largest it reaches, at most five.
pub open spec fn unit_index(value: int) -> int {
    if value < 0x400 {
        0
    } else if value < 0x10_0000 {
        1
    } else if value < 0x4000_0000 {
        2
    } else if value < 0x100_0000_0000 {
        3
    } else if value < 0x4_0000_0000_0000 {
        4
    } else {
        5
    }
}

pub open spec fn unit_size(unit: int) -> int {
    if unit == 0 {
        1
    } else if unit == 1 {
        0x400
    } else if unit == 2 {
        0x10_0000
    } else if unit == 3 {
        0x4000_0000
    } else if unit == 4 {
        0x100_0000_0000
    } else {
        0x4_0000_0000_0000
    }
}

pub open spec fn unit_name(unit: int) -> Seq<char> {
    if unit == 0 {
        "B"@
    } else if unit == 1 {
        "KiB"@
    } else if unit == 2 {
        "MiB"@
    } else if unit == 3 {
        "GiB"@
    } else if unit == 4 {
        "TiB"@
    } else {
        "PiB"@
    }
}

/// A number of hundredths with two decimals.
pub open spec fn two_decimals(hundredths: nat) -> Seq<char> {
    text::decimal_spec(hundredths / 100).push('.').push(text::digit(hundredths / 10 % 10)).push(
        text::digit(hundredths % 10),
    )
}

/// How a byte count is shown: whole below 1024 bytes, else in the largest unit it reaches with
/// two decimals.
pub open spec fn bytes_text(bytes: u64) -> Seq<char> {
    if bytes < 1024 {
        text::decimal_spec(bytes as nat) + " B"@
    } else {
        let value = held(bytes);
        let unit = unit_index(value);
        two_decimals(nearest_even(100 * value, unit_size(unit)) as nat) + " "@ + unit_name(unit)
    }
}

fn held_value(bytes: u64) -> (v: u128)
    ensures
        v == held(bytes),
        v <= 0x1_0000_0000_0000_0000,
        bytes >= 1024 ==> v >= 1024,
{
    let mut place: u64 = 1;
    while place < 0x800 && bytes / place >= 0x20_0000_0000_0000
        invariant
            1 <= place <= 0x800,
            last_place(bytes as int, 1) == last_place(bytes as int, place as int),
            place > 1 ==> bytes >= 0x20_0000_0000_0000,
            place == 1 || place == 2 || place == 4 || place == 8 || place == 16 || place == 32
                || place == 64 || place == 128 || place == 256 || place == 512 || place == 1024
                || place == 2048,
        decreases 0x1000 - place,
    {
        place = 2 * place;
    }
    let q: u64 = bytes / place;
    let r: u64 = bytes % place;
    proof {
        vstd::arithmetic::div_mod::lemma_fundamental_div_mod(bytes as int, place as int);
    }
    let up: bool = 2 * (r as u128) > place as u128 || (2 * (r as u128) == place as u128 && q % 2
        == 1);
    let n: u128 = if up { q as u128 + 1 } else { q as u128 };
    proof {
        assert(n <= 0x20_0000_0000_0000);
        assert(n * place <= 0x20_0000_0000_0000 * 0x800) by (nonlinear_arith)
            requires
                n <= 0x20_0000_0000_0000,
                place <= 0x800,
        ;
        assert(n * place >= q * place) by (nonlinear_arith)
            requires
                n >= q,
                place >= 1,
        ;
        assert(place * q == q * place) by (nonlinear_arith);
    }
    n * place as u128
}

/// A quotient to the nearest whole number, to the even one on a tie.
fn nearest(n: u128, d: u128) -> (q: u128)
    requires
        0 < d <= 0x4_0000_0000_0000,
        n < 0x1_0000_0000_0000_0000_0000_0000,
    ensures
        q == nearest_even(n as int, d as int),
{
    let q: u128 = n / d;
    let r: u128 = n % d;
    assert(r < d);
    assert(q <= n) by (nonlinear_arith)
        requires
            d > 0,
            q == n / d,
    ;
    if 2 * r > d || (2 * r == d && q % 2 == 1) {
        q + 1
    } else {
        q
    }
}

/// Formats a byte count as a human-readable size (e.g. `4.92 GiB`).
pub fn format_bytes(bytes: u64) -> (s: String)
    ensures
        s@ == bytes_text(bytes),
{
    if bytes < 1024 {
        let mut out = text::decimal(bytes);
        out.append(" B");
        return out;
    }
    let value: u128 = held_value(bytes);
    let (size, name): (u128, &'static str) = if value < 0x400 {
        (1, "B")
    } else if value < 0x10_0000 {
        (0x400, "KiB")
    } else if value < 0x4000_0000 {
        (0x10_0000, "MiB")
    } else if value < 0x100_0000_0000 {
        (0x4000_0000, "GiB")
    } else if value < 0x4_0000_0000_0000 {
        (0x100_0000_0000, "TiB")
    } else {
        (0x4_0000_0000_0000, "PiB")
    };
    let hundredths: u128 = nearest(100 * value, size);
    proof {
        lemma_hundredths_are_small(value as int);
    }
    let n: u64 = hundredths as u64;
    let mut out = text::decimal(n / 100);
    out.push('.');
    out.push(digit_char(n / 10 % 10));
    out.push(digit_char(n % 10));
    out.append(" ");
    out.append(name);
    out
}

proof fn lemma_hundredths_are_small(value: int)
    requires
        1024 <= value <= 0x1_0000_0000_0000_0000,
    ensures
        0 <= nearest_even(100 * value, unit_size(unit_index(value))) <= 0x1000_0000,
{
    let d = unit_size(unit_index(value));
    assert(value <= 0x4000 * d);
    assert((100 * value) / d <= 100 * 0x4000) by (nonlinear_arith)
        requires
            value <= 0x4000 * d,
            d > 0,
    ;
    assert((100 * value) / d >= 0) by (nonlinear_arith)
        requires
            value >= 0,
            d > 0,
    ;
}

fn digit_char(d: u64) -> (c: char)
    requires
        d < 10,
    ensures
        c == text::digit(d as nat),
{
    (48 + d as u8) as char
}

/// The seconds a double precision bit pattern stands for, to the nearest whole number (a half
/// goes up), nothing for a negative number or none at all, and no more than 64 bits hold.
pub open spec fn whole_seconds(bits: u64) -> nat {
    let exponent = bits as int / 0x10_0000_0000_0000;
    let fraction = bits as int % 0x10_0000_0000_0000;
    if bits >= 0x7ff0_0000_0000_0000 {
        // An infinity, or else no number or one below zero.
        if bits == 0x7ff0_0000_0000_0000 { u64::MAX as nat } else { 0 }
    } else if exponent >= 1087 {
        u64::MAX as nat
    } else if exponent >= 1075 {
        ((0x10_0000_0000_0000 + fraction) * pow2((exponent - 1075) as nat)) as nat
    } else if exponent >= 1 {
        // The value and a half, rounded down.
        ((2 * (0x10_0000_0000_0000 + fraction) + pow2((1075 - exponent) as nat)) / (2 * pow2(
            (1075 - exponent) as nat,
        ) as int)) as nat
    } else {
        0
    }
}

/// Whole minutes, a started one counted in full.
pub open spec fn minutes_of(seconds: nat) -> nat {
    (seconds + 59) / 60
}

/// A wait in words.
pub open spec fn duration_text(seconds: nat) -> Seq<char> {
    let minutes = minutes_of(seconds);
    if seconds < 60 {
        text::decimal_spec(seconds) + " s"@
    } else if minutes < 60 {
        text::decimal_spec(minutes) + " min"@
    } else if minutes % 60 == 0 {
        text::decimal_spec(minutes / 60) + " h"@
    } else {
        text::decimal_spec(minutes / 60) + " h "@ + text::decimal_spec(minutes % 60) + " min"@
    }
}

proof fn lemma_less_than_half(full: int, shift: nat)
    requires
        0 <= full < 0x20_0000_0000_0000,
        shift >= 54,
    ensures
        (2 * full + pow2(shift)) / (2 * pow2(shift) as int) == 0,
{
    vstd::arithmetic::power2::lemma_pow2_unfold(54);
    vstd::arithmetic::power2::lemma2_to64_rest();
    if shift > 54 {
        vstd::arithmetic::power2::lemma_pow2_strictly_increases(54, shift);
    }
    vstd::arithmetic::div_mod::lemma_fundamental_div_mod_converse(
        2 * full + pow2(shift),
        2 * pow2(shift) as int,
        0,
        2 * full + pow2(shift),
    );
}

/// Two to a power below 64.
fn power(n: u64) -> (p: u64)
    requires
        n < 64,
    ensures
        p == pow2(n as nat),
{
    let mut p: u64 = 1;
    let mut i: u64 = 0;
    proof {
        vstd::arithmetic::power2::lemma2_to64();
    }
    while i < n
        invariant
            i <= n < 64,
            p == pow2(i as nat),
        decreases n - i,
    {
        proof {
            vstd::arithmetic::power2::lemma_pow2_unfold((i + 1) as nat);
            vstd::arithmetic::power2::lemma2_to64_rest();
            if i < 62 {
                vstd::arithmetic::power2::lemma_pow2_strictly_increases((i + 1) as nat, 63);
            }
        }
        p = 2 * p;
        i = i + 1;
    }
    p
}

fn rounded_seconds(bits: u64) -> (n: u64)
    ensures
        n == whole_seconds(bits),
{
    let exponent: u64 = bits / 0x10_0000_0000_0000;
    let fraction: u64 = bits % 0x10_0000_0000_0000;
    if bits >= 0x7ff0_0000_0000_0000 {
        return if bits == 0x7ff0_0000_0000_0000 {
            u64::MAX
        } else {
            0
        };
    }
    if exponent >= 1087 {
        return u64::MAX;
    }
    let full: u64 = 0x10_0000_0000_0000 + fraction;
    if exponent >= 1075 {
        let factor: u64 = power(exponent - 1075);
        proof {
            vstd::arithmetic::power2::lemma2_to64();
            if exponent < 1086 {
                vstd::arithmetic::power2::lemma_pow2_strictly_increases(
                    (exponent - 1075) as nat,
                    11,
                );
            }
            assert(full * factor <= 0x1f_ffff_ffff_ffff * 0x800) by (nonlinear_arith)
                requires
                    full <= 0x1f_ffff_ffff_ffff,
                    factor <= 0x800,
            ;
        }
        return full * factor;
    }
    if exponent < 1022 {
        proof {
            if exponent >= 1 {
                lemma_less_than_half(full as int, (1075 - exponent) as nat);
            }
        }
        return 0;
    }
    let divisor: u64 = power(1075 - exponent);
    proof {
        vstd::arithmetic::power2::lemma2_to64();
        vstd::arithmetic::power2::lemma2_to64_rest();
        if exponent > 1022 {
            vstd::arithmetic::power2::lemma_pow2_strictly_increases((1075 - exponent) as nat, 53);
        }
        vstd::arithmetic::power2::lemma_pow2_pos((1075 - exponent) as nat);
    }
    (2 * full + divisor) / (2 * divisor)
}

/// A duration as a person would say it — `40 s`, `6 min`, `1 h 20 min` — for a wait that is an
/// estimate, so no more digits than the estimate deserves. The seconds come as the bits of a
/// double precision number.
pub fn format_duration_rough(seconds: u64) -> (s: String)
    ensures
        s@ == duration_text(whole_seconds(seconds)),
{
    let seconds: u64 = rounded_seconds(seconds);
    if seconds < 60 {
        let mut out = text::decimal(seconds);
        out.append(" s");
        return out;
    }
    let minutes: u64 = seconds / 60 + if seconds % 60 > 0 { 1 } else { 0 };
    assert(minutes == minutes_of(seconds as nat));
    if minutes < 60 {
        let mut out = text::decimal(minutes);
        out.append(" min");
        return out;
    }
    let mut out = text::decimal(minutes / 60);
    if minutes % 60 == 0 {
        out.append(" h");
    } else {
        out.append(" h ");
        out.append(text::decimal(minutes % 60).as_str());
        out.append(" min");
    }
    out
}

/// A byte count of up to 53 bits is held as it is; a longer one to the nearest number whose lowest
/// bits are nought, as many as it is too long by.
pub proof fn law_a_count_is_held_to_53_bits(bytes: u64, extra: nat)
    requires
        extra == 0 || pow2((52 + extra) as nat) <= bytes < pow2((53 + extra) as nat),
        extra == 0 ==> bytes < 0x20_0000_0000_0000,
    ensures
        extra == 0 ==> held(bytes) == bytes,
        held(bytes) % (pow2(extra) as int) == 0,
        2 * (held(bytes) - bytes) <= pow2(extra),
        2 * (bytes - held(bytes)) <= pow2(extra),
{
    vstd::arithmetic::power2::lemma2_to64();
    vstd::arithmetic::power2::lemma2_to64_rest();
    let n = bytes as int;
    assert(n / 1 == n && n % 1 == 0);
    if extra >= 12 {
        vstd::arithmetic::power2::lemma_pow2_unfold(64);
        if extra > 12 {
            vstd::arithmetic::power2::lemma_pow2_strictly_increases(64, (52 + extra) as nat);
        }
        assert(false);
    }
    lemma_last_place(n, 0, extra);
    let place = pow2(extra) as int;
    let (q, r) = (n / place, n % place);
    vstd::arithmetic::power2::lemma_pow2_pos(extra);
    vstd::arithmetic::div_mod::lemma_fundamental_div_mod(n, place);
    let m = nearest_even(n, place);
    assert(m == q || m == q + 1);
    assert(held(bytes) == m * place);
    assert(place * q == q * place) by (nonlinear_arith);
    assert((q + 1) * place == q * place + place) by (nonlinear_arith);
    vstd::arithmetic::div_mod::lemma_mod_multiples_basic(m, place);
}

proof fn lemma_last_place(n: int, from: nat, extra: nat)
    requires
        from <= extra <= 11,
        0 <= n,
        extra == 0 ==> n < 0x20_0000_0000_0000,
        extra > 0 ==> pow2((52 + extra) as nat) <= n < pow2((53 + extra) as nat),
    ensures
        last_place(n, pow2(from) as int) == pow2(extra),
    decreases extra - from,
{
    vstd::arithmetic::power2::lemma2_to64();
    vstd::arithmetic::power2::lemma2_to64_rest();
    let place = pow2(from) as int;
    vstd::arithmetic::power2::lemma_pow2_pos(from);
    vstd::arithmetic::power2::lemma_pow2_adds(53, from);
    vstd::arithmetic::div_mod::lemma_fundamental_div_mod(n, place);
    let q = n / place;
    assert(0x20_0000_0000_0000 * place == place * 0x20_0000_0000_0000) by (nonlinear_arith);
    if from < extra {
        if from + 1 < extra {
            vstd::arithmetic::power2::lemma_pow2_strictly_increases(
                (53 + from) as nat,
                (52 + extra) as nat,
            );
        }
        assert(q >= 0x20_0000_0000_0000) by (nonlinear_arith)
            requires
                n >= 0x20_0000_0000_0000 * place,
                n == place * q + n % place,
                n % place < place,
                place > 0,
        ;
        assert(place < 0x800) by {
            vstd::arithmetic::power2::lemma_pow2_strictly_increases(from, 11);
        }
        vstd::arithmetic::power2::lemma_pow2_unfold((from + 1) as nat);
        lemma_last_place(n, from + 1, extra);
    } else {
        assert(q < 0x20_0000_0000_0000) by (nonlinear_arith)
            requires
                n < 0x20_0000_0000_0000 * place,
                n == place * q + n % place,
                n % place >= 0,
                place > 0,
        ;
    }
}

/// A size of a kibibyte or more is shown in the largest unit it reaches, to the nearest hundredth
/// of that unit: `h` hundredths with two decimals behind the point, a space and the unit, each
/// unit 1024 times the one before.
pub proof fn law_a_size_is_shown_in_the_unit_it_reaches(bytes: u64, k: nat)
    requires
        1 <= k <= 5,
        bytes >= 1024,
        pow2(10 * k) <= held(bytes),
        k < 5 ==> held(bytes) < pow2(10 * (k + 1)),
    ensures
        exists|h: nat|
            bytes_text(bytes) == #[trigger] two_decimals(h) + " "@ + seq![
                seq!['K', 'M', 'G', 'T', 'P'][k - 1],
                'i',
                'B',
            ] && 2 * (h * pow2(10 * k) - 100 * held(bytes)) <= pow2(10 * k) && 2 * (100 * held(
                bytes,
            ) - h * pow2(10 * k)) <= pow2(10 * k),
{
    vstd::arithmetic::power2::lemma2_to64();
    vstd::arithmetic::power2::lemma2_to64_rest();
    reveal_strlit("KiB");
    reveal_strlit("MiB");
    reveal_strlit("GiB");
    reveal_strlit("TiB");
    reveal_strlit("PiB");
    let value = held(bytes);
    let size = pow2(10 * k) as int;
    assert(unit_index(value) == k);
    assert(unit_size(k as int) == size);
    let name = seq![seq!['K', 'M', 'G', 'T', 'P'][k - 1], 'i', 'B'];
    assert(unit_name(k as int) =~= name);
    let n = 100 * value;
    let m = nearest_even(n, size);
    let (q, r) = (n / size, n % size);
    vstd::arithmetic::div_mod::lemma_fundamental_div_mod(n, size);
    vstd::arithmetic::div_mod::lemma_div_pos_is_pos(n, size);
    assert(m == q || m == q + 1);
    assert(size * q == q * size) by (nonlinear_arith);
    assert((q + 1) * size == q * size + size) by (nonlinear_arith);
    let h = m as nat;
    assert(bytes_text(bytes) == two_decimals(h) + " "@ + name);
}

/// Fewer bytes than a kibibyte are counted; hundredths stand behind a point, two digits always.
pub proof fn law_hundredths_have_two_decimals(bytes: u64, h: nat)
    ensures
        bytes < 1024 ==> bytes_text(bytes) == text::decimal_spec(bytes as nat) + " B"@,
        ({
            let shown = two_decimals(h);
            let whole = text::decimal_spec(h / 100);
            let n = whole.len() as int;
            &&& shown.len() == whole.len() + 3
            &&& shown.take(whole.len() as int) == whole
            &&& shown[whole.len() as int] == '.'
            &&& 10 * (shown[n + 1] as u32 - '0' as u32) + (shown[n + 2] as u32
                - '0' as u32) == h % 100
            &&& '0' <= shown[n + 1] <= '9' && '0' <= shown[n + 2] <= '9'
        }),
{
    let whole = text::decimal_spec(h / 100);
    assert(two_decimals(h).take(whole.len() as int) =~= whole);
    assert(text::digit(h / 10 % 10) as u32 == 48 + h / 10 % 10);
    assert(text::digit(h % 10) as u32 == 48 + h % 10);
}

/// A wait of a minute or more is said in minutes, a started one counted in full, and from an hour
/// on in hours and the minutes left over, which are not said where there are none.
pub proof fn law_a_wait_is_said_in_started_minutes(seconds: nat, hours: nat, minutes: nat)
    requires
        minutes < 60,
        60 * (60 * hours + minutes - 1) < seconds <= 60 * (60 * hours + minutes),
        seconds >= 60,
    ensures
        hours == 0 ==> duration_text(seconds) == text::decimal_spec(minutes) + " min"@,
        hours > 0 && minutes == 0 ==> duration_text(seconds) == text::decimal_spec(hours) + " h"@,
        hours > 0 && minutes > 0 ==> duration_text(seconds) == text::decimal_spec(hours) + " h "@
            + text::decimal_spec(minutes) + " min"@,
{
    assert((seconds + 59) / 60nat == 60 * hours + minutes);
}

/// Less than a minute is said in seconds.
pub proof fn law_a_short_wait_is_said_in_seconds(seconds: nat)
    requires
        seconds < 60,
    ensures
        duration_text(seconds) == text::decimal_spec(seconds) + " s"@,
{
}

/// A number of seconds is rounded to the nearest whole one, a half up: what a double is worth,
/// its significand over or times a power of two, is at most half a second from it. What is below
/// nought or no number is no time, and what does not fit is the most there is.
pub proof fn law_seconds_are_rounded_to_the_nearest(bits: u64)
    ensures
        ({
            let n = whole_seconds(bits);
            let exponent = bits as int / 0x10_0000_0000_0000;
            let significand = 0x10_0000_0000_0000 + bits as int % 0x10_0000_0000_0000;
            let below = pow2((1075 - exponent) as nat);
            &&& bits >= 0x8000_0000_0000_0000 ==> n == 0
            &&& 0x7ff0_0000_0000_0000 < bits < 0x8000_0000_0000_0000 ==> n == 0
            &&& 1087 <= exponent < 0x7ff || bits == 0x7ff0_0000_0000_0000 ==> n == u64::MAX
            &&& 1075 <= exponent < 1087 ==> n == significand * pow2((exponent - 1075) as nat)
            &&& 1 <= exponent < 1075 ==> 2 * (n * below) - below <= 2 * significand < 2 * (n * below)
                + below
            &&& exponent == 0 ==> n == 0
        }),
{
    let exponent = bits as int / 0x10_0000_0000_0000;
    let significand = 0x10_0000_0000_0000 + bits as int % 0x10_0000_0000_0000;
    if 1 <= exponent < 1075 {
        let p = pow2((1075 - exponent) as nat) as int;
        vstd::arithmetic::power2::lemma_pow2_pos((1075 - exponent) as nat);
        vstd::arithmetic::div_mod::lemma_fundamental_div_mod(2 * significand + p, 2 * p);
        let n = (2 * significand + p) / (2 * p);
        vstd::arithmetic::div_mod::lemma_div_pos_is_pos(2 * significand + p, 2 * p);
        assert((2 * p) * n == 2 * (n * p)) by (nonlinear_arith);
        assert(whole_seconds(bits) == n);
    }
    if 1075 <= exponent < 1087 {
        let p = pow2((exponent - 1075) as nat) as int;
        assert(significand * p >= 0) by (nonlinear_arith)
            requires
                significand >= 0,
                p >= 0,
        ;
    }
}

/// A quotient is rounded to the nearest whole number, and one that lies halfway to the even one.
pub proof fn law_halfway_goes_to_the_even(n: int, d: int)
    requires
        0 <= n,
        0 < d,
    ensures
        ({
            let q = nearest_even(n, d);
            &&& -d <= 2 * (n - q * d) <= d
            &&& 2 * (n - q * d) == d || 2 * (n - q * d) == -d ==> q % 2 == 0
        }),
{
    let (q, r) = (n / d, n % d);
    vstd::arithmetic::div_mod::lemma_fundamental_div_mod(n, d);
    vstd::arithmetic::div_mod::lemma_mod_bound(n, d);
    assert(d * q == q * d) by (nonlinear_arith);
    assert((q + 1) * d == q * d + d) by (nonlinear_arith);
}

} // verus!
