//! Sizing the store by the hardware.

use vstd::prelude::*;
use vstd::arithmetic::power2::*;
use crate::binary64::{laws, rounding, whole, ONE};
use crate::candle::CANDLE_BYTES;
use crate::text;
use crate::text::{char_vec, parse_unsigned, trim};
use crate::Binary64;

verus! {

/// The pattern of the number three.
pub const THREE: u64 = 0x4008_0000_0000_0000;

/// The pattern of 0.05, the smallest share of the hardware.
pub const LEAST_FRACTION: u64 = 0x3fa9_9999_9999_999a;

/// The fewest candles of a ring.
pub const LEAST_CAPACITY: usize = 256;

/// The most candles of a ring.
pub const MOST_CAPACITY: usize = 1_000_000;

/// The size of the last-level cache where it is not known.
pub const DEFAULT_L3: usize = 8_388_608;

/// What the operating system says of one cache: its level and its size, as text,
/// as far as they could be read.
#[derive(Debug)]
pub struct CacheReading {
    pub level: Option<String>,
    pub size: Option<String>,
}

/// What the operating system says of the caches.
#[derive(Debug)]
pub enum CacheReadings {
    /// One reading for each cache.
    Listed(Vec<CacheReading>),
    /// The bytes of the third and the second level, zero where not known.
    Reported { l3: u64, l2: u64 },
    /// Nothing.
    Unknown,
}

/// The processor's architecture, as far as it matters.
#[derive(Debug, Clone, Copy, PartialEq, Eq, Structural)]
pub enum Architecture {
    /// 64-bit ARM, and the bytes of a cache line as reported, zero where not known.
    Arm64 { reported_line: u64 },
    /// Anything else.
    Other,
}

/// The hardware that the store is sized by.
#[derive(Debug, Clone, Copy)]
pub struct HardwareProfile {
    /// Bytes of the last-level cache.
    pub l3_cache_bytes: usize,
    /// Bytes of a cache line.
    pub cache_line_bytes: usize,
    /// Physical cores.
    pub physical_cores: usize,
    /// The share of the hardware that the store may use.
    pub resource_fraction: Binary64,
}

/// A number of bytes, which may be in units of 1024 or 1024 times 1024 bytes.
pub open spec fn size_value(s: Seq<char>) -> Option<int> {
    if s.len() > 0 && s.last() == 'K' {
        match text::number(text::trimmed(s.drop_last()), false, 0, usize::MAX as int) {
            Some(n) => Some(n * 1024),
            None => None,
        }
    } else if s.len() > 0 && s.last() == 'M' {
        match text::number(text::trimmed(s.drop_last()), false, 0, usize::MAX as int) {
            Some(n) => Some(n * 1024 * 1024),
            None => None,
        }
    } else {
        text::number(s, false, 0, usize::MAX as int)
    }
}

impl CacheReading {
    /// The size that counts, if this is a cache of the third level with a size.
    pub open spec fn l3(self) -> Option<int> {
        match (self.level, self.size) {
            (Some(level), Some(size)) => if text::trimmed(level@) == "3"@ {
                size_value(text::trimmed(size@))
            } else {
                None
            },
            _ => None,
        }
    }

    /// The size can be counted.
    pub open spec fn fits(self) -> bool {
        self.l3() matches Some(n) ==> n <= usize::MAX
    }
}

/// The first size that counts from `start` on.
pub open spec fn first_l3(readings: Seq<CacheReading>, start: int) -> int
    decreases readings.len() - start,
{
    if start >= readings.len() {
        DEFAULT_L3 as int
    } else {
        match readings[start].l3() {
            Some(n) => n,
            None => first_l3(readings, start + 1),
        }
    }
}

impl CacheReadings {
    /// The size that counts can be counted.
    pub open spec fn fit(self) -> bool {
        self.l3() <= usize::MAX
    }

    /// The bytes of the last-level cache.
    pub open spec fn l3(self) -> int {
        match self {
            CacheReadings::Listed(readings) => first_l3(readings@, 0),
            CacheReadings::Reported { l3, l2 } => if l3 > 0 {
                l3 as int
            } else if l2 > 0 {
                l2 as int
            } else {
                DEFAULT_L3 as int
            },
            CacheReadings::Unknown => DEFAULT_L3 as int,
        }
    }
}

/// The bytes of a cache line.
pub open spec fn line_bytes(arch: Architecture) -> int {
    match arch {
        Architecture::Arm64 { reported_line } => if reported_line > 0 {
            reported_line as int
        } else {
            128
        },
        Architecture::Other => 64,
    }
}

/// A number kept between two others. What is not a number stays as it is.
pub open spec fn clamped(x: Binary64, low: Binary64, high: Binary64) -> Binary64 {
    if x.less(low) {
        low
    } else if high.less(x) {
        high
    } else {
        x
    }
}

/// How many symbols share the cache: at least one.
pub open spec fn sharers(max_symbols: usize) -> int {
    if max_symbols == 0 {
        1
    } else {
        max_symbols as int
    }
}

pub open spec fn to_usize(n: u64) -> usize {
    if n > usize::MAX {
        usize::MAX
    } else {
        n as usize
    }
}

/// Calls `num_cpus::get_physical`, which counts the physical cores of the machine
/// and always finds at least one.
#[verifier::external_body]
fn physical_cores() -> (r: usize)
    ensures
        r >= 1,
{
    num_cpus::get_physical()
}

/// A number of bytes: a plain number, or one followed by `K` or `M`.
pub fn parse_cache_size(s: &str) -> (r: Option<usize>)
    requires
        size_value(s@) matches Some(n) ==> n <= usize::MAX,
    ensures
        match r {
            Some(n) => size_value(s@) == Some(n as int),
            None => size_value(s@) is None,
        },
{
    let chars = char_vec(s);
    let to = chars.len();
    if to > 0 && (chars[to - 1] == 'K' || chars[to - 1] == 'M') {
        assert(s@.drop_last() =~= chars@.subrange(0, to - 1));
        let (a, b) = trim(&chars, 0, to - 1);
        match parse_unsigned(&chars, a, b, usize::MAX as u64) {
            Some(n) => if chars[to - 1] == 'K' {
                Some(n as usize * 1024)
            } else {
                Some(n as usize * 1024 * 1024)
            },
            None => None,
        }
    } else {
        assert(chars@.subrange(0, to as int) =~= s@);
        match parse_unsigned(&chars, 0, to, usize::MAX as u64) {
            Some(n) => Some(n as usize),
            None => None,
        }
    }
}

/// Whether a number of bytes can be counted.
pub fn cache_size_fits(s: &str) -> (r: bool)
    ensures
        r == (size_value(s@) matches Some(n) ==> n <= usize::MAX),
{
    let chars = char_vec(s);
    let to = chars.len();
    if to > 0 && (chars[to - 1] == 'K' || chars[to - 1] == 'M') {
        assert(s@.drop_last() =~= chars@.subrange(0, to - 1));
        let (a, b) = trim(&chars, 0, to - 1);
        match parse_unsigned(&chars, a, b, usize::MAX as u64) {
            Some(n) => if chars[to - 1] == 'K' {
                n as u128 * 1024 <= usize::MAX as u128
            } else {
                n as u128 * 1024 * 1024 <= usize::MAX as u128
            },
            None => true,
        }
    } else {
        assert(chars@.subrange(0, to as int) =~= s@);
        true
    }
}

/// A number of bytes, if it can be counted; nothing at all if it cannot.
pub fn checked_cache_size(s: &str) -> (r: Option<Option<usize>>)
    ensures
        match r {
            Some(Some(n)) => size_value(s@) == Some(n as int),
            Some(None) => size_value(s@) is None,
            None => size_value(s@) matches Some(n) && n > usize::MAX,
        },
{
    if cache_size_fits(s) {
        Some(parse_cache_size(s))
    } else {
        None
    }
}

/// The part of a text that is left after trimming.
fn trimmed_chars(s: &str) -> (r: (Vec<char>, usize, usize))
    ensures
        r.1 <= r.2 <= r.0@.len(),
        r.0@.subrange(r.1 as int, r.2 as int) == text::trimmed(s@),
{
    let chars = char_vec(s);
    assert(chars@.subrange(0, chars@.len() as int) =~= s@);
    let (a, b) = trim(&chars, 0, chars.len());
    (chars, a, b)
}

/// Whether the text is the number of the third level.
fn is_third_level(level: &str) -> (r: bool)
    ensures
        r == (text::trimmed(level@) == "3"@),
{
    let (chars, a, b) = trimmed_chars(level);
    proof {
        reveal_strlit("3");
        let t = text::trimmed(level@);
        if t.len() == 1 && t[0] == '3' {
            assert(t =~= "3"@);
        }
        assert(t == chars@.subrange(a as int, b as int));
    }
    b - a == 1 && chars[a] == '3'
}

/// The text that is left after trimming.
fn trimmed_text(s: &str) -> (r: String)
    ensures
        r@ == text::trimmed(s@),
{
    let (chars, a, b) = trimmed_chars(s);
    let mut r = String::new();
    let mut i: usize = a;
    while i < b
        invariant
            a <= i <= b <= chars@.len(),
            r@ == chars@.subrange(a as int, i as int),
        decreases b - i,
    {
        r.push(chars[i]);
        assert(chars@.subrange(a as int, i + 1) =~= chars@.subrange(a as int, i as int).push(
            chars@[i as int],
        ));
        i = i + 1;
    }
    r
}

/// The size of a cache of the third level.
fn l3_of(reading: &CacheReading) -> (r: Option<usize>)
    requires
        reading.fits(),
    ensures
        match r {
            Some(n) => reading.l3() == Some(n as int),
            None => reading.l3() is None,
        },
{
    match (&reading.level, &reading.size) {
        (Some(level), Some(size)) => if is_third_level(level.as_str()) {
            let size = trimmed_text(size.as_str());
            parse_cache_size(size.as_str())
        } else {
            None
        },
        _ => None,
    }
}

/// Whether a size can be counted.
fn reading_fits(reading: &CacheReading) -> (r: bool)
    ensures
        r == reading.fits(),
{
    match (&reading.level, &reading.size) {
        (Some(level), Some(size)) => if is_third_level(level.as_str()) {
            let size = trimmed_text(size.as_str());
            cache_size_fits(size.as_str())
        } else {
            true
        },
        _ => true,
    }
}

/// Whether the size that counts can be counted.
pub fn readings_fit(readings: &CacheReadings) -> (r: bool)
    ensures
        r == readings.fit(),
{
    match readings {
        CacheReadings::Listed(list) => {
            let mut i: usize = 0;
            while i < list.len()
                invariant
                    i <= list@.len(),
                    first_l3(list@, i as int) == first_l3(list@, 0),
                    readings.l3() == first_l3(list@, 0),
                decreases list@.len() - i,
            {
                if !reading_fits(&list[i]) {
                    return false;
                }
                if l3_of(&list[i]).is_some() {
                    return true;
                }
                i = i + 1;
            }
            true
        },
        CacheReadings::Reported { l3, l2 } => if *l3 > 0 {
            *l3 <= usize::MAX as u64
        } else {
            *l2 <= usize::MAX as u64
        },
        CacheReadings::Unknown => true,
    }
}

/// The bytes of the last-level cache.
pub fn detect_l3_cache(readings: &CacheReadings) -> (r: usize)
    requires
        readings.fit(),
    ensures
        r == readings.l3(),
{
    match readings {
        CacheReadings::Listed(list) => {
            let mut i: usize = 0;
            while i < list.len()
                invariant
                    i <= list@.len(),
                    readings.fit(),
                    first_l3(list@, i as int) == first_l3(list@, 0),
                    readings.l3() == first_l3(list@, 0),
                decreases list@.len() - i,
            {
                if let Some(n) = l3_of(&list[i]) {
                    return n;
                }
                i = i + 1;
            }
            DEFAULT_L3
        },
        CacheReadings::Reported { l3, l2 } => if *l3 > 0 {
            *l3 as usize
        } else if *l2 > 0 {
            *l2 as usize
        } else {
            DEFAULT_L3
        },
        CacheReadings::Unknown => DEFAULT_L3,
    }
}

/// The bytes of a cache line.
pub fn detect_cache_line(arch: Architecture) -> (r: usize)
    requires
        line_bytes(arch) <= usize::MAX,
    ensures
        r == line_bytes(arch),
{
    match arch {
        Architecture::Arm64 { reported_line } => if reported_line > 0 {
            reported_line as usize
        } else {
            128
        },
        Architecture::Other => 64,
    }
}

impl HardwareProfile {
    /// The profile of this machine, which is taken to be shared: a third of it may
    /// be used. The number of cores comes from the machine.
    pub fn detect(readings: &CacheReadings, arch: Architecture) -> (r: HardwareProfile)
        requires
            readings.fit(),
            line_bytes(arch) <= usize::MAX,
        ensures
            r.l3_cache_bytes == readings.l3(),
            r.cache_line_bytes == line_bytes(arch),
            r.physical_cores >= 1,
            r.resource_fraction == (Binary64 { bits: ONE }).quotient(Binary64 { bits: THREE }),
    {
        HardwareProfile {
            l3_cache_bytes: detect_l3_cache(readings),
            cache_line_bytes: detect_cache_line(arch),
            physical_cores: physical_cores(),
            resource_fraction: Binary64::from_bits(ONE).over(Binary64::from_bits(THREE)),
        }
    }

    /// The profile of this machine, all of which may be used.
    pub fn dedicated(readings: &CacheReadings, arch: Architecture) -> (r: HardwareProfile)
        requires
            readings.fit(),
            line_bytes(arch) <= usize::MAX,
        ensures
            r.l3_cache_bytes == readings.l3(),
            r.cache_line_bytes == line_bytes(arch),
            r.physical_cores >= 1,
            r.resource_fraction == (Binary64 { bits: ONE }),
    {
        let mut r = HardwareProfile::detect(readings, arch);
        r.resource_fraction = Binary64::from_bits(ONE);
        r
    }

    /// The profile of this machine, if the sizes that were read can be counted.
    pub fn try_detect(readings: &CacheReadings, arch: Architecture, dedicated: bool) -> (r: Option<
        HardwareProfile,
    >)
        ensures
            r is Some <==> readings.fit() && line_bytes(arch) <= usize::MAX,
            r matches Some(hw) ==> {
                &&& hw.l3_cache_bytes == readings.l3()
                &&& hw.cache_line_bytes == line_bytes(arch)
                &&& hw.physical_cores >= 1
                &&& hw.resource_fraction == if dedicated {
                    Binary64 { bits: ONE }
                } else {
                    (Binary64 { bits: ONE }).quotient(Binary64 { bits: THREE })
                }
            },
    {
        let line_fits = match arch {
            Architecture::Arm64 { reported_line } => reported_line <= usize::MAX as u64,
            Architecture::Other => true,
        };
        if !line_fits || !readings_fit(readings) {
            return None;
        }
        if dedicated {
            Some(HardwareProfile::dedicated(readings, arch))
        } else {
            Some(HardwareProfile::detect(readings, arch))
        }
    }

    /// The same profile with another share, kept between 0.05 and 1.
    pub fn with_fraction(self, fraction: Binary64) -> (r: HardwareProfile)
        ensures
            r == (HardwareProfile {
                resource_fraction: clamped(
                    fraction,
                    Binary64 { bits: LEAST_FRACTION },
                    Binary64 { bits: ONE },
                ),
                ..self
            }),
            (Binary64 { bits: LEAST_FRACTION }).at_most(fraction) && fraction.at_most(
                Binary64 { bits: ONE },
            ) ==> r.resource_fraction == fraction,
    {
        let low = Binary64::from_bits(LEAST_FRACTION);
        let high = Binary64::from_bits(ONE);
        let mut r = self;
        r.resource_fraction = if fraction.lt(low) {
            low
        } else if high.lt(fraction) {
            high
        } else {
            fraction
        };
        r
    }

    /// The bytes of the last-level cache that may be used.
    pub open spec fn usable_bytes(self) -> usize {
        to_usize(
            Binary64::of_whole(self.l3_cache_bytes as nat).product(
                self.resource_fraction,
            ).truncated(),
        )
    }

    /// The bytes of the last-level cache that may be used.
    pub fn usable_l3_bytes(&self) -> (r: usize)
        ensures
            r == self.usable_bytes(),
    {
        let n = Binary64::from_u64(self.l3_cache_bytes as u64).times(
            self.resource_fraction,
        ).to_u64();
        if n > usize::MAX as u64 {
            usize::MAX
        } else {
            n as usize
        }
    }

    /// The cores that may be used: at least one.
    pub fn usable_cores(&self) -> (r: usize)
        ensures
            ({
                let n = to_usize(
                    Binary64::of_whole(self.physical_cores as nat).product(
                        self.resource_fraction,
                    ).rounded_up(),
                );
                r == if n < 1 {
                    1
                } else {
                    n
                }
            }),
    {
        let n = Binary64::from_u64(self.physical_cores as u64).times(
            self.resource_fraction,
        ).ceil_to_u64();
        let n = if n > usize::MAX as u64 {
            usize::MAX
        } else {
            n as usize
        };
        if n < 1 {
            1
        } else {
            n
        }
    }

    /// How many candles of each symbol fit, where so many symbols share what may be
    /// used of the cache, kept between the bounds of a ring.
    pub open spec fn capacity_for(self, max_symbols: usize) -> int {
        let candles = self.usable_bytes() as int / sharers(max_symbols) / CANDLE_BYTES as int;
        if candles < LEAST_CAPACITY {
            LEAST_CAPACITY as int
        } else if candles > MOST_CAPACITY {
            MOST_CAPACITY as int
        } else {
            candles
        }
    }

    /// The capacity of each symbol's ring.
    pub fn ring_capacity_for(&self, max_symbols: usize) -> (r: usize)
        ensures
            r == self.capacity_for(max_symbols),
            LEAST_CAPACITY <= r <= MOST_CAPACITY,
    {
        let symbols = if max_symbols == 0 {
            1
        } else {
            max_symbols
        };
        let candles = self.usable_l3_bytes() / symbols / CANDLE_BYTES;
        if candles < LEAST_CAPACITY {
            LEAST_CAPACITY
        } else if candles > MOST_CAPACITY {
            MOST_CAPACITY
        } else {
            candles
        }
    }

    /// How many candles fit in a cache line: at least one.
    pub fn candles_per_cache_line(&self) -> (r: usize)
        ensures
            r == if self.cache_line_bytes / CANDLE_BYTES < 1 {
                1
            } else {
                self.cache_line_bytes / CANDLE_BYTES
            },
    {
        let n = self.cache_line_bytes / CANDLE_BYTES;
        if n < 1 {
            1
        } else {
            n
        }
    }
}

/// A share between 0.05 and 1 is kept as it is; a smaller one becomes 0.05 and a larger
/// one 1. The rest of the profile stays as it was.
pub proof fn lemma_share_is_kept(x: Binary64)
    requires
        !x.nan(),
    ensures
        ({
            let least = Binary64 { bits: LEAST_FRACTION };
            let one = Binary64 { bits: ONE };
            let kept = clamped(x, least, one);
            &&& least.value() <= x.value() <= one.value() ==> kept == x
            &&& x.value() < least.value() ==> kept == least
            &&& x.value() > one.value() ==> kept == one
        }),
{
    lemma_least_share(x);
    laws::lemma_one();
    assert(!(Binary64 { bits: LEAST_FRACTION }).nan());
}

/// The least share is a twentieth, as nearly as a number can be; the largest is one, and
/// the share of a machine that is not dedicated is one over three.
pub proof fn lemma_least_share(z: Binary64)
    ensures
        z.finite() ==> whole::apart(
            20 * (Binary64 { bits: LEAST_FRACTION }).value(),
            whole::unit(),
        ) <= whole::apart(20 * z.value(), whole::unit()),
        (Binary64 { bits: LEAST_FRACTION }).value() < (Binary64 { bits: ONE }).value(),
        (Binary64 { bits: ONE }) == Binary64::of_whole(1),
        (Binary64 { bits: THREE }) == Binary64::of_whole(3),
{
    laws::lemma_one();
    whole::lemma_whole(1);
    whole::lemma_whole(3);
    whole::lemma_same_units(Binary64 { bits: ONE }, Binary64::of_whole(1));
    let d = pow2(1074);
    assert((Binary64 { bits: THREE }).units() == 3 * d) by {
        rounding::lemma_magnitude_parts(1023, 0x18_0000_0000_0000);
        lemma_pow2_adds(51, 1023);
        lemma2_to64_rest();
        let a = pow2(1023);
        assert(0x18_0000_0000_0000 * a == 3 * (0x8_0000_0000_0000 * a)) by (nonlinear_arith);
    }
    whole::lemma_same_units(Binary64 { bits: THREE }, Binary64::of_whole(3));
    let l = LEAST_FRACTION as int;
    let a = pow2(1017);
    lemma_pow2_pos(1017);
    rounding::lemma_magnitude_parts(1017, 0x19_9999_9999_9999);
    rounding::lemma_magnitude_parts(1017, 0x19_9999_9999_999a);
    rounding::lemma_magnitude_parts(1017, 0x19_9999_9999_999b);
    lemma_pow2_adds(57, 1017);
    lemma2_to64_rest();
    assert(rounding::is_nearest(l, d, 20)) by {
        let low = rounding::magnitude(l - 1);
        let mid = rounding::magnitude(l);
        let high = rounding::magnitude(l + 1);
        assert(low == 0x19_9999_9999_9999 * a);
        assert(mid == 0x19_9999_9999_999a * a);
        assert(high == 0x19_9999_9999_999b * a);
        assert(d == 0x200_0000_0000_0000 * a);
        assert((low + mid) * 20 < 2 * d && 2 * d < (mid + high) * 20);
    }
    rounding::lemma_nearest_exists(d, 20);
    rounding::lemma_nearest_unique(l, rounding::nearest(d, 20), d, 20);
    rounding::lemma_magnitude_increases(l, ONE as int);
    if z.finite() {
        whole::lemma_none_nearer(d, 20, z.pattern());
    }
}

/// What may be used of the cache is its share of the bytes, rounded down, as long as the
/// product is not rounded, and never more than there is.
pub proof fn lemma_usable_share(hw: HardwareProfile)
    requires
        hw.l3_cache_bytes < whole::EXACT,
        hw.resource_fraction.finite(),
        0 <= hw.resource_fraction.value() <= whole::unit(),
        !hw.resource_fraction.negative(),
        whole::representable(hw.l3_cache_bytes * hw.resource_fraction.value()),
    ensures
        hw.usable_bytes() * whole::unit() <= hw.l3_cache_bytes * hw.resource_fraction.value(),
        hw.l3_cache_bytes * hw.resource_fraction.value() < (hw.usable_bytes() + 1) * whole::unit(),
        hw.usable_bytes() <= hw.l3_cache_bytes,
{
    let n = hw.l3_cache_bytes as nat;
    let x = Binary64::of_whole(n);
    let f = hw.resource_fraction;
    let u = whole::unit();
    whole::lemma_whole(n);
    let v = n * f.value();
    assert(v * u == x.value() * f.value()) by (nonlinear_arith)
        requires
            v == n * f.value(),
            x.value() == n * u,
    ;
    whole::lemma_exact_product(x, f, v);
    laws::lemma_product_with_fraction(x, f);
    let r = x.product(f);
    assert(v <= n * u) by (nonlinear_arith)
        requires
            v == n * f.value(),
            f.value() <= u,
    ;
    assert(n * u < 0xffff_ffff_ffff_ffff * u) by (nonlinear_arith)
        requires
            n < 0xffff_ffff_ffff_ffff,
            u > 0,
    ;
    whole::lemma_as_whole(r);
    let t = r.truncated() as int;
    assert(t <= n) by (nonlinear_arith)
        requires
            t * u <= n * u,
            u > 0,
    ;
}

/// Of the caches that are listed, the first one of the third level with a size counts;
/// where there is none, 8 MiB are taken.
pub proof fn lemma_first_listed_cache_counts(list: Vec<CacheReading>, k: int)
    requires
        0 <= k <= list@.len(),
        forall|i: int| 0 <= i < k ==> (#[trigger] list@[i]).l3() is None,
        k < list@.len() ==> list@[k].l3() is Some,
    ensures
        CacheReadings::Listed(list).l3() == if k < list@.len() {
            list@[k].l3()->Some_0
        } else {
            8_388_608int
        },
{
    lemma_first_l3(list@, 0, k);
}

proof fn lemma_first_l3(list: Seq<CacheReading>, start: int, k: int)
    requires
        0 <= start <= k <= list.len(),
        forall|i: int| start <= i < k ==> (#[trigger] list[i]).l3() is None,
        k < list.len() ==> list[k].l3() is Some,
    ensures
        first_l3(list, start) == if k < list.len() {
            list[k].l3()->Some_0
        } else {
            DEFAULT_L3 as int
        },
    decreases k - start,
{
    if start < k {
        assert(list[start].l3() is None);
        lemma_first_l3(list, start + 1, k);
    }
}

/// Of the sizes that are reported, that of the third level counts, or else that of the
/// second; where neither is known, 8 MiB are taken. A cache line has the bytes that are
/// reported, or 128 on ARM and 64 elsewhere.
pub proof fn lemma_reported_caches(l3: u64, l2: u64, line: u64)
    ensures
        l3 > 0 ==> (CacheReadings::Reported { l3, l2 }).l3() == l3,
        l3 == 0 && l2 > 0 ==> (CacheReadings::Reported { l3, l2 }).l3() == l2,
        l3 == 0 && l2 == 0 ==> (CacheReadings::Reported { l3, l2 }).l3() == 8 * 1024 * 1024,
        CacheReadings::Unknown.l3() == 8 * 1024 * 1024,
        line > 0 ==> line_bytes(Architecture::Arm64 { reported_line: line }) == line,
        line_bytes(Architecture::Arm64 { reported_line: 0 }) == 128,
        line_bytes(Architecture::Other) == 64,
{
}

/// More symbols never get more candles each.
pub proof fn lemma_capacity_shrinks_with_symbols(hw: HardwareProfile, fewer: usize, more: usize)
    requires
        fewer <= more,
    ensures
        hw.capacity_for(more) <= hw.capacity_for(fewer),
{
    let a = sharers(fewer);
    let b = sharers(more);
    let n = hw.usable_bytes() as int;
    vstd::arithmetic::div_mod::lemma_div_is_ordered_by_denominator(n, a, b);
    vstd::arithmetic::div_mod::lemma_div_is_ordered(n / b, n / a, CANDLE_BYTES as int);
}

/// A larger share of the cache never gets symbols fewer candles each.
pub proof fn lemma_capacity_grows_with_fraction(
    hw: HardwareProfile,
    less: Binary64,
    more: Binary64,
    max_symbols: usize,
)
    requires
        less.at_most(more),
    ensures
        (HardwareProfile { resource_fraction: less, ..hw }).capacity_for(max_symbols) <= (
        HardwareProfile { resource_fraction: more, ..hw }).capacity_for(max_symbols),
{
    let low = HardwareProfile { resource_fraction: less, ..hw };
    let high = HardwareProfile { resource_fraction: more, ..hw };
    let n = hw.l3_cache_bytes as nat;
    laws::lemma_whole_is_a_number(n);
    laws::lemma_product_is_ordered(Binary64::of_whole(n), less, more);
    let a = low.usable_bytes() as int;
    let b = high.usable_bytes() as int;
    let m = sharers(max_symbols);
    vstd::arithmetic::div_mod::lemma_div_is_ordered(a, b, m);
    vstd::arithmetic::div_mod::lemma_div_is_ordered(a / m, b / m, CANDLE_BYTES as int);
}

/// The rings of all symbols together fit in what may be used of the cache, unless
/// each would get fewer candles than a ring has at least; and they would not with one
/// candle more in each, unless each has as many as a ring has at most.
pub proof fn lemma_rings_fit_in_cache(hw: HardwareProfile, max_symbols: usize)
    ensures
        ({
            let r = hw.capacity_for(max_symbols);
            let n = sharers(max_symbols);
            &&& LEAST_CAPACITY <= r <= MOST_CAPACITY
            &&& r > LEAST_CAPACITY ==> CANDLE_BYTES * n * r <= hw.usable_bytes()
            &&& r < MOST_CAPACITY ==> CANDLE_BYTES * n * (r + 1) > hw.usable_bytes()
        }),
{
    let u = hw.usable_bytes() as int;
    let n = sharers(max_symbols);
    let size = CANDLE_BYTES as int;
    let each = u / n;
    let candles = each / size;
    let r = hw.capacity_for(max_symbols);
    vstd::arithmetic::div_mod::lemma_fundamental_div_mod(u, n);
    vstd::arithmetic::div_mod::lemma_mod_bound(u, n);
    if r > LEAST_CAPACITY {
        assert(r * size <= each);
        assert(size * n * r <= u) by (nonlinear_arith)
            requires
                r * size <= each,
                n * each <= u,
                n > 0,
        ;
    }
    if r < MOST_CAPACITY {
        assert(candles <= r);
        assert(each + 1 <= (r + 1) * size);
        assert(size * n * (r + 1) > u) by (nonlinear_arith)
            requires
                each + 1 <= (r + 1) * size,
                u < n * each + n,
                n > 0,
        ;
    }
}

/// A dedicated machine is used as a whole.
pub proof fn lemma_dedicated_uses_everything(hw: HardwareProfile)
    requires
        hw.resource_fraction == (Binary64 { bits: ONE }),
        hw.l3_cache_bytes < 2 * rounding::BINADE,
    ensures
        hw.usable_bytes() == hw.l3_cache_bytes,
{
    laws::lemma_whole_numbers_are_exact(hw.l3_cache_bytes as nat);
    laws::lemma_product_with_one(Binary64::of_whole(hw.l3_cache_bytes as nat));
}

/// A size is in bytes, in units of 1024 bytes, or in units of 1024 times as much; white
/// space before the unit makes no difference.
pub proof fn lemma_units_of_size(n: usize)
    ensures
        size_value(text::digits(n as nat)) == Some(n as int),
        size_value(text::digits(n as nat).push('K')) == Some(n * 1024),
        size_value(text::digits(n as nat).push('M')) == Some(n * 1_048_576),
        size_value(text::digits(n as nat).push(' ').push('K')) == Some(n * 1024),
{
    let d = text::digits(n as nat);
    text::lemma_digits(n as nat);
    text::lemma_number_of_text(n as int, 0, usize::MAX as int);
    assert(text::is_digit(d[d.len() - 1]));
    assert(text::is_digit(d[0]));
    assert(text::trimmed(d) == d);
    assert(d.push('K').drop_last() =~= d);
    assert(d.push('M').drop_last() =~= d);
    let spaced = d.push(' ');
    assert(spaced.push('K').drop_last() =~= spaced);
    assert(spaced.drop_last() =~= d);
    assert(text::trimmed_front(spaced) == spaced);
    assert(text::trimmed_back(spaced) == text::trimmed_back(d));
}

/// The symbols share what may be used of the cache in equal parts: with 48 bytes for a
/// candle, each gets as many as fit in its part, but from 256 to a million. No symbols
/// get as much as one.
pub proof fn lemma_equal_parts(hw: HardwareProfile, symbols: usize)
    requires
        symbols > 0,
    ensures
        ({
            let r = hw.capacity_for(symbols);
            &&& 256 <= r <= 1_000_000
            &&& r > 256 ==> 48 * symbols * r <= hw.usable_bytes()
            &&& r < 1_000_000 ==> 48 * symbols * (r + 1) > hw.usable_bytes()
        }),
        hw.capacity_for(0) == hw.capacity_for(1),
{
    lemma_rings_fit_in_cache(hw, symbols);
}

} // verus!
