//! Download configuration: the command shapes, the download arguments with
//! their defaults, and the reading of human-readable sizes such as `8MB`
//! or `1GiB`.

use vstd::prelude::*;
use vstd::string::StringExecFns;
use crate::text::all_digits;
use crate::text::chars_of;
use crate::text::digits_value;
use crate::text::frac_scaled;
use crate::text::is_digit;
use crate::text::is_upper_alpha;
use crate::text::lemma_digits_prefix_le;
use crate::text::lemma_digits_step;
use crate::text::lemma_digits_value_nonneg;
use crate::text::lemma_frac_scaled_div;
use crate::text::lemma_pow10_pos;
use crate::text::parse_u64;
use crate::text::pow10;
use crate::text::spec_parse_u64;
use crate::text::str_eq;
use crate::text::string_of_chars;
use crate::text::to_upper_chars;
use crate::text::trim_chars;
use crate::text::trimmed;
use crate::text::upper_chars;

verus! {

/// The command line: one download command.
#[derive(Debug)]
pub struct Cli {
    pub command: Command,
}

/// Which backend the download goes against.
#[derive(Debug)]
pub enum Command {
    /// Download from the object store.
    S3(S3Args),
    /// Download from an HTTP or HTTPS server.
    Http(HttpArgs),
}

/// Arguments of an object-store download.
#[derive(Debug, Clone)]
pub struct S3Args {
    /// Locator in the shape `s3://bucket/key`.
    pub uri: String,
    /// Version of the object, for versioned buckets.
    pub version_id: Option<String>,
    /// How many workers fetch concurrently.
    pub concurrency: usize,
    /// Bytes per range request.
    pub chunk_size: usize,
    /// Suppress progress output.
    pub quiet: bool,
}

/// Arguments of an HTTP download.
#[derive(Debug, Clone)]
pub struct HttpArgs {
    /// The address to download.
    pub url: String,
    /// How many workers fetch concurrently.
    pub concurrency: usize,
    /// Bytes per range request.
    pub chunk_size: usize,
    /// Suppress progress output.
    pub quiet: bool,
}

/// The download options shared by both backends.
#[derive(Debug, Clone, Copy, PartialEq, Eq, Structural)]
pub struct DownloadArgs {
    pub concurrency: usize,
    pub chunk_size: usize,
    pub quiet: bool,
}

impl Default for DownloadArgs {
    /// Ten workers, 8 MiB chunks, progress shown.
    fn default() -> (d: Self)
        ensures
            d.concurrency == 10,
            d.chunk_size == 8388608,
            d.quiet == false,
    {
        DownloadArgs { concurrency: 10, chunk_size: 8 * 1024 * 1024, quiet: false }
    }
}

impl<'a> From<&'a S3Args> for DownloadArgs {
    fn from(args: &'a S3Args) -> (r: Self) {
        DownloadArgs {
            concurrency: args.concurrency,
            chunk_size: args.chunk_size,
            quiet: args.quiet,
        }
    }
}

impl<'a> vstd::std_specs::convert::FromSpecImpl<&'a S3Args> for DownloadArgs {
    open spec fn obeys_from_spec() -> bool {
        true
    }

    open spec fn from_spec(args: &'a S3Args) -> Self {
        DownloadArgs {
            concurrency: args.concurrency,
            chunk_size: args.chunk_size,
            quiet: args.quiet,
        }
    }
}

impl<'a> From<&'a HttpArgs> for DownloadArgs {
    fn from(args: &'a HttpArgs) -> (r: Self) {
        DownloadArgs {
            concurrency: args.concurrency,
            chunk_size: args.chunk_size,
            quiet: args.quiet,
        }
    }
}

impl<'a> vstd::std_specs::convert::FromSpecImpl<&'a HttpArgs> for DownloadArgs {
    open spec fn obeys_from_spec() -> bool {
        true
    }

    open spec fn from_spec(args: &'a HttpArgs) -> Self {
        DownloadArgs {
            concurrency: args.concurrency,
            chunk_size: args.chunk_size,
            quiet: args.quiet,
        }
    }
}

/// The canonical form of a size argument: trimmed, then raised to upper
/// case.
pub open spec fn canonical_size(s: Seq<char>) -> Seq<char> {
    upper_chars(trimmed(s))
}

/// What `usize` parsing accepts: the `u64` shapes whose value fits.
pub open spec fn spec_parse_usize(s: Seq<char>) -> Option<usize> {
    match spec_parse_u64(s) {
        Some(v) => if v <= usize::MAX {
            Some(v as usize)
        } else {
            None
        },
        None => None,
    }
}

/// The position of the first upper-case letter at or after `from`, or the
/// length when there is none.
pub open spec fn first_alpha(s: Seq<char>, from: int) -> int
    decreases s.len() - from,
{
    if from < 0 || from >= s.len() {
        s.len() as int
    } else if is_upper_alpha(s[from]) {
        from
    } else {
        first_alpha(s, from + 1)
    }
}

/// The position of the first `.` at or after `from`, or the length when
/// there is none.
pub open spec fn first_dot(s: Seq<char>, from: int) -> int
    decreases s.len() - from,
{
    if from < 0 || from >= s.len() {
        s.len() as int
    } else if s[from] == '.' {
        from
    } else {
        first_dot(s, from + 1)
    }
}

/// The byte multiplier a size suffix denotes: decimal and binary units
/// from bytes to tebibytes.
pub open spec fn spec_multiplier(sfx: Seq<char>) -> Option<int> {
    if sfx == "B"@ {
        Some(1)
    } else if sfx == "KB"@ || sfx == "K"@ {
        Some(1000)
    } else if sfx == "KIB"@ {
        Some(1024)
    } else if sfx == "MB"@ || sfx == "M"@ {
        Some(1000000)
    } else if sfx == "MIB"@ {
        Some(1048576)
    } else if sfx == "GB"@ || sfx == "G"@ {
        Some(1000000000)
    } else if sfx == "GIB"@ {
        Some(1073741824)
    } else if sfx == "TB"@ || sfx == "T"@ {
        Some(1000000000000)
    } else if sfx == "TIB"@ {
        Some(1099511627776)
    } else {
        None
    }
}

/// The magnitude of a signed decimal: what stands after the sign.
pub open spec fn magnitude_of(num: Seq<char>) -> Seq<char> {
    if num.len() > 0 && (num[0] == '-' || num[0] == '+') {
        num.drop_first()
    } else {
        num
    }
}

pub open spec fn is_negative(num: Seq<char>) -> bool {
    num.len() > 0 && num[0] == '-'
}

pub open spec fn int_part(mag: Seq<char>) -> Seq<char> {
    mag.subrange(0, first_dot(mag, 0))
}

pub open spec fn frac_part(mag: Seq<char>) -> Seq<char> {
    if first_dot(mag, 0) == mag.len() {
        Seq::empty()
    } else {
        mag.subrange(first_dot(mag, 0) + 1, mag.len() as int)
    }
}

/// A decimal number: an optional sign, digits with at most one point, and
/// at least one digit overall.
pub open spec fn valid_number(num: Seq<char>) -> bool {
    let mag = magnitude_of(num);
    &&& int_part(mag).len() + frac_part(mag).len() > 0
    &&& all_digits(int_part(mag))
    &&& all_digits(frac_part(mag))
}

/// The byte count `num` times `mult` denotes, clamped into `usize`: zero
/// for a negative number, the address-space bound for one too large. The
/// fractional digits contribute their exact scaled value, floored.
pub open spec fn spec_scaled_bytes(num: Seq<char>, mult: int) -> int {
    if is_negative(num) {
        0
    } else {
        let mag = magnitude_of(num);
        let v = digits_value(int_part(mag)) * mult + (digits_value(frac_part(mag)) * mult)
            / pow10(frac_part(mag).len() as nat);
        if v > usize::MAX {
            usize::MAX as int
        } else {
            v
        }
    }
}

fn slice_chars(v: &Vec<char>, a: usize, b: usize) -> (r: Vec<char>)
    requires
        a <= b <= v@.len(),
    ensures
        r@ == v@.subrange(a as int, b as int),
{
    let mut r: Vec<char> = Vec::new();
    let mut i: usize = a;
    while i < b
        invariant
            a <= i <= b <= v@.len(),
            r@ == v@.subrange(a as int, i as int),
        decreases b - i,
    {
        r.push(v[i]);
        i = i + 1;
        proof {
            assert(r@ =~= v@.subrange(a as int, i as int));
        }
    }
    r
}

fn all_digits_exec(v: &Vec<char>) -> (b: bool)
    ensures
        b == all_digits(v@),
{
    let mut i: usize = 0;
    while i < v.len()
        invariant
            i <= v@.len(),
            forall|j: int| 0 <= j < i ==> is_digit(#[trigger] v@[j]),
        decreases v@.len() - i,
    {
        let c = v[i];
        if c < '0' || c > '9' {
            return false;
        }
        i = i + 1;
    }
    true
}

fn size_multiplier(sfx: &str) -> (m: Option<u64>)
    ensures
        (match m {
            Some(v) => spec_multiplier(sfx@) == Some(v as int),
            None => spec_multiplier(sfx@) is None,
        }),
{
    if str_eq(sfx, "B") {
        Some(1)
    } else if str_eq(sfx, "KB") || str_eq(sfx, "K") {
        Some(1000)
    } else if str_eq(sfx, "KIB") {
        Some(1024)
    } else if str_eq(sfx, "MB") || str_eq(sfx, "M") {
        Some(1000000)
    } else if str_eq(sfx, "MIB") {
        Some(1048576)
    } else if str_eq(sfx, "GB") || str_eq(sfx, "G") {
        Some(1000000000)
    } else if str_eq(sfx, "GIB") {
        Some(1073741824)
    } else if str_eq(sfx, "TB") || str_eq(sfx, "T") {
        Some(1000000000000)
    } else if str_eq(sfx, "TIB") {
        Some(1099511627776)
    } else {
        None
    }
}

fn number_valid(num: &Vec<char>) -> (b: bool)
    ensures
        b == valid_number(num@),
{
    let n = num.len();
    let start: usize = if n > 0 && (num[0] == '-' || num[0] == '+') {
        1
    } else {
        0
    };
    let mag = slice_chars(num, start, n);
    proof {
        assert(mag@ =~= magnitude_of(num@));
    }
    let m = mag.len();
    let mut dp: usize = 0;
    while dp < m && mag[dp] != '.'
        invariant
            dp <= m,
            m == mag@.len(),
            first_dot(mag@, 0) == first_dot(mag@, dp as int),
        decreases m - dp,
    {
        dp = dp + 1;
    }
    proof {
        assert(first_dot(mag@, 0) == dp);
    }
    let ip = slice_chars(&mag, 0, dp);
    let fp = if dp < m {
        slice_chars(&mag, dp + 1, m)
    } else {
        Vec::new()
    };
    proof {
        assert(ip@ =~= int_part(mag@));
        assert(fp@ =~= frac_part(mag@));
    }
    if ip.len() == 0 && fp.len() == 0 {
        return false;
    }
    if !all_digits_exec(&ip) {
        return false;
    }
    if !all_digits_exec(&fp) {
        return false;
    }
    true
}

fn scaled_bytes(num: &Vec<char>, mult: u64) -> (v: usize)
    requires
        valid_number(num@),
        1 <= mult <= 1099511627776,
    ensures
        v as int == spec_scaled_bytes(num@, mult as int),
{
    let n = num.len();
    if n > 0 && num[0] == '-' {
        return 0;
    }
    let start: usize = if n > 0 && num[0] == '+' {
        1
    } else {
        0
    };
    let mag = slice_chars(num, start, n);
    proof {
        assert(mag@ =~= magnitude_of(num@));
    }
    let m = mag.len();
    let mut dp: usize = 0;
    while dp < m && mag[dp] != '.'
        invariant
            dp <= m,
            m == mag@.len(),
            first_dot(mag@, 0) == first_dot(mag@, dp as int),
        decreases m - dp,
    {
        dp = dp + 1;
    }
    proof {
        assert(first_dot(mag@, 0) == dp);
    }
    let ip = slice_chars(&mag, 0, dp);
    let fp = if dp < m {
        slice_chars(&mag, dp + 1, m)
    } else {
        Vec::new()
    };
    proof {
        assert(ip@ =~= int_part(mag@));
        assert(fp@ =~= frac_part(mag@));
        lemma_digits_value_nonneg(fp@);
        lemma_pow10_pos(fp@.len() as nat);
    }
    // the integer digits, saturating once the value can no longer fit
    let mut ipv: u64 = 0;
    let mut k: usize = 0;
    let mut sat = false;
    while k < ip.len() && !sat
        invariant
            k <= ip@.len(),
            all_digits(ip@),
            !sat ==> ipv == digits_value(ip@.subrange(0, k as int)),
            sat ==> digits_value(ip@) > u64::MAX,
        decreases ip@.len() - k + (if sat { 0int } else { 1int }),
    {
        let ipc = ip[k];
        let d = (ipc as u32 - 48) as u64;
        if ipv > 1844674407370955161 || (ipv == 1844674407370955161 && d > 5) {
            proof {
                lemma_digits_step(ip@, k as int);
                lemma_digits_prefix_le(ip@, k as int + 1);
            }
            sat = true;
        } else {
            proof {
                lemma_digits_step(ip@, k as int);
            }
            ipv = ipv * 10 + d;
            k = k + 1;
        }
    }
    if sat {
        proof {
            let ipval = digits_value(int_part(magnitude_of(num@)));
            let fdiv = (digits_value(frac_part(magnitude_of(num@))) * (mult as int)) / pow10(
                frac_part(magnitude_of(num@)).len() as nat,
            );
            assert(digits_value(frac_part(magnitude_of(num@))) * (mult as int) >= 0)
                by (nonlinear_arith)
                requires
                    digits_value(frac_part(magnitude_of(num@))) >= 0 && mult >= 1,
            ;
            vstd::arithmetic::div_mod::lemma_div_pos_is_pos(
                digits_value(frac_part(magnitude_of(num@))) * (mult as int),
                pow10(frac_part(magnitude_of(num@)).len() as nat),
            );
            assert(ipval * (mult as int) + fdiv > usize::MAX) by (nonlinear_arith)
                requires
                    ipval > u64::MAX && mult >= 1 && fdiv >= 0 && usize::MAX <= u64::MAX,
            ;
        }
        return usize::MAX;
    }
    proof {
        assert(ip@.subrange(0, ip@.len() as int) =~= ip@);
    }
    // the fractional digits, scaled from the right
    let mut f: u64 = 0;
    let mut k2: usize = fp.len();
    while k2 > 0
        invariant
            k2 <= fp@.len(),
            all_digits(fp@),
            1 <= mult <= 1099511627776,
            f as int == frac_scaled(fp@.skip(k2 as int), mult as int),
            f <= mult - 1,
        decreases k2,
    {
        k2 = k2 - 1;
        let fpc = fp[k2];
        let d = (fpc as u32 - 48) as u64;
        let ghost fold = f as int;
        proof {
            assert(d as int * mult as int + fold < u64::MAX) by (nonlinear_arith)
                requires
                    0 <= d <= 9 && 1 <= mult <= 1099511627776 && 0 <= fold <= mult - 1,
            ;
        }
        f = (d * mult + f) / 10;
        proof {
            assert(fp@.skip(k2 as int).drop_first() =~= fp@.skip(k2 as int + 1));
            assert(fp@.skip(k2 as int)[0] == fp@[k2 as int]);
            assert((d as int * mult as int + fold) / 10 <= mult - 1) by (nonlinear_arith)
                requires
                    0 <= d <= 9 && mult >= 1 && 0 <= fold <= mult - 1,
            ;
        }
    }
    proof {
        assert(fp@.skip(0) =~= fp@);
        lemma_frac_scaled_div(fp@, mult as int);
    }
    proof {
        assert((ipv as int) * (mult as int) + (f as int) < u128::MAX) by (nonlinear_arith)
            requires
                ipv <= u64::MAX && 1 <= mult <= 1099511627776 && f <= mult - 1,
        ;
        assert((ipv as int) * (mult as int) >= 0) by (nonlinear_arith)
            requires
                ipv >= 0 && mult >= 1,
        ;
    }
    let total: u128 = (ipv as u128) * (mult as u128) + (f as u128);
    if total > (usize::MAX as u128) {
        usize::MAX
    } else {
        total as usize
    }
}

/// Read a chunk-size argument: a plain byte count, or a decimal number
/// followed by a unit such as `B`, `KB`, `KiB`, up to `TiB`, with
/// whitespace and letter case forgiven. The number may carry a sign and a
/// fractional part; the result is clamped into `usize`. Each malformed
/// shape is rejected with its own description.
pub fn parse_chunk_size(s: &str) -> (r: Result<usize, String>)
    ensures
        (({
            let c = canonical_size(s@);
            let p = first_alpha(c, 0);
            let num = trimmed(c.subrange(0, p));
            let sfx = trimmed(c.subrange(p, c.len() as int));
            match spec_parse_usize(c) {
                Some(v) => r == Ok::<usize, String>(v),
                None => if p == c.len() {
                    r matches Err(msg) && msg@ == "Invalid size format: "@ + c
                } else if !valid_number(num) {
                    r matches Err(msg) && msg@ == "Invalid number: "@ + c.subrange(0, p)
                } else {
                    match spec_multiplier(sfx) {
                        Some(mult) => r matches Ok(v) && v as int == spec_scaled_bytes(num, mult),
                        None => r matches Err(msg) && msg@ == "Unknown size suffix: "@ + c.subrange(
                            p,
                            c.len() as int,
                        ),
                    }
                },
            }
        })),
{
    let raw = chars_of(s);
    let t = trim_chars(&raw);
    let c = to_upper_chars(&t);
    let c_str = string_of_chars(&c);
    match parse_u64(c_str.as_str()) {
        Some(v) if v <= (usize::MAX as u64) => {
            return Ok(v as usize);
        },
        _ => {},
    }
    let n = c.len();
    let mut p: usize = 0;
    while p < n && !(c[p] as u32 >= 65 && c[p] as u32 <= 90)
        invariant
            p <= n,
            n == c@.len(),
            first_alpha(c@, 0) == first_alpha(c@, p as int),
        decreases n - p,
    {
        p = p + 1;
    }
    proof {
        assert(first_alpha(c@, 0) == p);
    }
    if p == n {
        return Err(String::from_str("Invalid size format: ").concat(c_str.as_str()));
    }
    let num_raw = slice_chars(&c, 0, p);
    let sfx_raw = slice_chars(&c, p, n);
    let num = trim_chars(&num_raw);
    let sfx = trim_chars(&sfx_raw);
    if !number_valid(&num) {
        let num_raw_str = string_of_chars(&num_raw);
        return Err(String::from_str("Invalid number: ").concat(num_raw_str.as_str()));
    }
    let sfx_str = string_of_chars(&sfx);
    match size_multiplier(sfx_str.as_str()) {
        Some(mult) => Ok(scaled_bytes(&num, mult)),
        None => {
            let sfx_raw_str = string_of_chars(&sfx_raw);
            Err(String::from_str("Unknown size suffix: ").concat(sfx_raw_str.as_str()))
        },
    }
}

} // verus!
