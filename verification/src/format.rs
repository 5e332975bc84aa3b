//! Display-ready rendering of raw metrics: byte counts scaled to the largest
//! fitting unit, and processor usage as a percentage with two decimals.
//!
//! Both renderings are total. Where a metric is missing or undefined the
//! result is the sentinel text instead of a number.

use vstd::prelude::*;
use vstd::arithmetic::power::pow;
use crate::text::{decimal, digit_char, digit_str, push_decimal};

verus! {

/// Bytes in one kibibyte.
pub const KIB: u64 = 1024;

/// Bytes in one mebibyte.
pub const MIB: u64 = 1048576;

/// Bytes in one gibibyte.
pub const GIB: u64 = 1073741824;

/// The text shown in place of a metric that is missing or undefined.
pub open spec fn sentinel() -> Seq<char> {
    seq!['E', 'r', 'r', 'o', 'r']
}

/// The number of bytes in the unit with the given index: 1024 to the power
/// `index`.
pub open spec fn unit_size(index: nat) -> nat {
    pow(1024, index) as nat
}

/// The name of the unit with the given index: B, KB, MB, and GB from the
/// third on.
pub open spec fn unit_name(index: nat) -> Seq<char> {
    if index == 0 {
        seq!['B']
    } else if index == 1 {
        seq!['K', 'B']
    } else if index == 2 {
        seq!['M', 'B']
    } else {
        seq!['G', 'B']
    }
}

/// The index of the unit a byte count is shown in: the largest of 0 to 3 whose
/// unit fits into `bytes` at least once, and 0 if none does.
pub open spec fn unit_index(bytes: nat) -> nat {
    if bytes / unit_size(3) >= 1 {
        3
    } else if bytes / unit_size(2) >= 1 {
        2
    } else if bytes / unit_size(1) >= 1 {
        1
    } else {
        0
    }
}

/// The sizes of the four units in bytes.
pub proof fn lemma_unit_sizes()
    ensures
        unit_size(0) == 1,
        unit_size(1) == KIB,
        unit_size(2) == MIB,
        unit_size(3) == GIB,
{
    reveal_with_fuel(pow, 4);
}

/// The text for a byte count: the sentinel for zero, otherwise the whole number
/// of the largest fitting unit, a space, and the unit's name.
pub open spec fn memory_text(bytes: nat) -> Seq<char> {
    if bytes == 0 {
        sentinel()
    } else {
        let k = unit_index(bytes);
        decimal(bytes / unit_size(k)) + seq![' '] + unit_name(k)
    }
}

/// The text for an optional byte count: the sentinel where it is absent.
pub open spec fn optional_memory_text(bytes: Option<u64>) -> Seq<char> {
    match bytes {
        Some(b) => memory_text(b as nat),
        None => sentinel(),
    }
}

/// The unit chosen for a positive byte count fits at least once, and no larger
/// unit does.
pub proof fn lemma_unit_is_largest(bytes: nat)
    requires
        bytes > 0,
    ensures
        unit_index(bytes) <= 3,
        bytes / unit_size(unit_index(bytes)) >= 1,
        forall|k: nat| unit_index(bytes) < k <= 3 ==> bytes / #[trigger] unit_size(k) == 0,
{
    lemma_unit_sizes();
    assert(bytes / unit_size(0) == bytes) by (nonlinear_arith)
        requires
            unit_size(0) == 1,
    ;
    assert forall|k: nat| unit_index(bytes) < k <= 3 implies bytes / #[trigger] unit_size(k)
        == 0 by {
        assert(k == 1 || k == 2 || k == 3);
    }
}

/// The sentinel as an owned string.
pub fn sentinel_string() -> (s: String)
    ensures
        s@ == sentinel(),
{
    proof {
        reveal_strlit("Error");
    }
    String::from_str("Error")
}

/// Renders a byte count in the largest unit that fits at least once, with
/// truncating division; zero renders as the sentinel.
pub fn human_readable_bytes(bytes: u64) -> (s: String)
    ensures
        s@ == memory_text(bytes as nat),
{
    if bytes == 0 {
        return sentinel_string();
    }
    let kb: u64 = bytes / KIB;
    let mb: u64 = kb / KIB;
    let gb: u64 = mb / KIB;
    proof {
        // Dividing by 1024 again and again is dividing by its powers.
        lemma_unit_sizes();
        let b = bytes as nat;
        assert(b / unit_size(0) == b && b / unit_size(1) == kb && b / unit_size(2) == mb && b
            / unit_size(3) == gb) by (nonlinear_arith)
            requires
                unit_size(0) == 1,
                unit_size(1) == 1024,
                unit_size(2) == 1048576,
                unit_size(3) == 1073741824,
                kb == b / 1024,
                mb == kb / 1024,
                gb == mb / 1024,
        ;
        reveal_strlit(" GB");
        reveal_strlit(" MB");
        reveal_strlit(" KB");
        reveal_strlit(" B");
    }
    let mut s = String::new();
    if gb > 0 {
        push_decimal(&mut s, gb as u128);
        s.append(" GB");
    } else if mb > 0 {
        push_decimal(&mut s, mb as u128);
        s.append(" MB");
    } else if kb > 0 {
        push_decimal(&mut s, kb as u128);
        s.append(" KB");
    } else {
        push_decimal(&mut s, bytes as u128);
        s.append(" B");
    }
    s
}

/// Renders an optional byte count; an absent count renders as the sentinel.
pub fn format_memory(bytes: Option<u64>) -> (s: String)
    ensures
        s@ == optional_memory_text(bytes),
{
    match bytes {
        Some(b) => human_readable_bytes(b),
        None => sentinel_string(),
    }
}

/// The reading of an optional counter: zero where it is absent.
pub open spec fn counter_or_zero(counter: Option<u64>) -> int {
    match counter {
        Some(v) => v as int,
        None => 0,
    }
}

/// The quotient `num / den` rounded to the nearest whole number, a tie going to
/// the even neighbour.
pub open spec fn round_half_even(num: nat, den: nat) -> nat
    recommends
        den > 0,
{
    let q = num / den;
    let r = num % den;
    if 2 * r > den || (2 * r == den && q % 2 == 1) {
        q + 1
    } else {
        q
    }
}

/// Processor usage in hundredths of a percent: the processor counter's advance
/// as a share of the system counter's advance, times 100, rounded to two
/// decimals. It is undefined, `None`, where the system counter did not advance
/// or either counter ran backwards.
pub open spec fn cpu_share(cpu_delta: int, system_delta: int) -> Option<nat> {
    if system_delta <= 0 || cpu_delta < 0 {
        None
    } else {
        Some(round_half_even((cpu_delta * 10000) as nat, system_delta as nat))
    }
}

/// The text for a number of hundredths of a percent: whole part, a point, two
/// decimals and a percent sign.
pub open spec fn percent_text(hundredths: nat) -> Seq<char> {
    decimal(hundredths / 100) + seq![
        '.',
        digit_char((hundredths / 10) % 10),
        digit_char(hundredths % 10),
        '%',
    ]
}

/// The text for processor usage between two readings of the counters: the
/// percentage where it is defined, the sentinel where it is not.
pub open spec fn cpu_text(
    cpu_now: u64,
    cpu_prev: u64,
    system_now: Option<u64>,
    system_prev: Option<u64>,
) -> Seq<char> {
    match cpu_share(cpu_now - cpu_prev, counter_or_zero(system_now) - counter_or_zero(system_prev)) {
        Some(h) => percent_text(h),
        None => sentinel(),
    }
}

/// Processor usage between two readings in hundredths of a percent, or `None`
/// where it is undefined. Absent system counters read as zero.
pub fn cpu_hundredths(
    cpu_now: u64,
    cpu_prev: u64,
    system_now: Option<u64>,
    system_prev: Option<u64>,
) -> (h: Option<u128>)
    ensures
        h.is_some() == cpu_share(
            cpu_now - cpu_prev,
            counter_or_zero(system_now) - counter_or_zero(system_prev),
        ).is_some(),
        h matches Some(v) ==> v as nat == cpu_share(
            cpu_now - cpu_prev,
            counter_or_zero(system_now) - counter_or_zero(system_prev),
        ).unwrap(),
{
    let sys_now: u64 = match system_now {
        Some(v) => v,
        None => 0,
    };
    let sys_prev: u64 = match system_prev {
        Some(v) => v,
        None => 0,
    };
    if sys_now <= sys_prev || cpu_now < cpu_prev {
        return None;
    }
    let cpu_delta: u128 = (cpu_now - cpu_prev) as u128;
    let system_delta: u128 = (sys_now - sys_prev) as u128;
    let scaled: u128 = cpu_delta * 10000;
    let q: u128 = scaled / system_delta;
    let r: u128 = scaled % system_delta;
    if 2 * r > system_delta || (2 * r == system_delta && q % 2 == 1) {
        Some(q + 1)
    } else {
        Some(q)
    }
}

/// Renders processor usage between two readings of the counters as a
/// percentage with two decimals. Where the system counter did not advance, or
/// a counter ran backwards, the usage is undefined and renders as the sentinel.
pub fn calculate_cpu_percent(
    cpu_now: u64,
    cpu_prev: u64,
    system_now: Option<u64>,
    system_prev: Option<u64>,
) -> (s: String)
    ensures
        s@ == cpu_text(cpu_now, cpu_prev, system_now, system_prev),
        counter_or_zero(system_now) == counter_or_zero(system_prev) ==> s@ == sentinel(),
{
    match cpu_hundredths(cpu_now, cpu_prev, system_now, system_prev) {
        None => sentinel_string(),
        Some(h) => {
            let mut s = String::new();
            push_decimal(&mut s, h / 100);
            proof {
                reveal_strlit(".");
                reveal_strlit("%");
            }
            s.append(".");
            s.append(digit_str(((h / 10) % 10) as u8));
            s.append(digit_str((h % 10) as u8));
            s.append("%");
            s
        },
    }
}

} // verus!
