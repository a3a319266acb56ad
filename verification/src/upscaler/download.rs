//! Catalogue of downloadable models, where they are cached, and byte-count
//! formatting for download progress.
use vstd::prelude::*;
use vstd::string::StringExecFns;

use crate::upscaler::{
    directly_inside, join_path, joined, lemma_joined_prefix, needs_separator, plain_name, verbatim_dir,
};

verus! {

/// A downloadable, pre-trained ONNX super-resolution model.
#[derive(Clone, Copy)]
pub struct ModelSpec {
    pub label: &'static str,
    pub file_name: &'static str,
    pub url: &'static str,
    pub scale: u32,
    pub approx_mb: u32,
}

impl ModelSpec {
    /// A catalogue entry that can be used as is: fetched over https, stored as
    /// a plain `.onnx` file name, and upscaling by at least 2.
    pub open spec fn well_formed(self) -> bool {
        &&& "https://"@.is_prefix_of(self.url@)
        &&& ".onnx"@.is_suffix_of(self.file_name@)
        &&& plain_name(self.file_name@)
        &&& self.scale >= 2
    }
}

/// Curated models known to satisfy the app's I/O contract
/// (NCHW RGB float32 in `[0,1]`, dynamic H/W).
pub fn models() -> (r: Vec<ModelSpec>)
    ensures
        r.len() == 1,
        r[0].label@ == "Real-ESRGAN x4plus (범용, 4x)"@,
        r[0].file_name@ == "realesrgan-x4plus.onnx"@,
        r[0].url@ == "https://huggingface.co/spaces/Wuvin/Unique3D/resolve/main/ckpt/realesrgan-x4.onnx"@,
        r[0].scale == 4,
        r[0].approx_mb == 64,
        forall|i: int| 0 <= i < r.len() ==> (#[trigger] r[i]).well_formed(),
{
    let spec = ModelSpec {
        label: "Real-ESRGAN x4plus (범용, 4x)",
        file_name: "realesrgan-x4plus.onnx",
        url: "https://huggingface.co/spaces/Wuvin/Unique3D/resolve/main/ckpt/realesrgan-x4.onnx",
        scale: 4,
        approx_mb: 64,
    };
    proof {
        reveal_strlit("https://");
        reveal_strlit(".onnx");
        reveal_strlit("realesrgan-x4plus.onnx");
        reveal_strlit("https://huggingface.co/spaces/Wuvin/Unique3D/resolve/main/ckpt/realesrgan-x4.onnx");
        assert("https://"@ =~= spec.url@.subrange(0, 8));
        assert(".onnx"@ =~= spec.file_name@.subrange(17, 22));
        assert(spec.file_name@[0] == 'r' && spec.file_name@.len() == 22);
        assert(!spec.file_name@.contains('/') && !spec.file_name@.contains('\\')
            && !spec.file_name@.contains(':'));
    }
    let mut v: Vec<ModelSpec> = Vec::new();
    v.push(spec);
    v
}

/// Where a given model is (or would be) cached: its file name joined onto
/// `cache_dir` by the platform's path rules. Unless `cache_dir` has a Windows
/// verbatim prefix, the path ends with the file name, and for a plain file
/// name (as every catalogue entry has) it is `cache_dir`, at most one
/// separator, and the file name, so it lies under `cache_dir`.
pub fn model_path(cache_dir: &str, spec: &ModelSpec) -> (r: String)
    ensures
        !verbatim_dir(cache_dir@) ==> spec.file_name@.is_suffix_of(r@),
        !verbatim_dir(cache_dir@) && plain_name(spec.file_name@) ==> joined(cache_dir@, spec.file_name@, r@)
            && cache_dir@.is_prefix_of(r@),
        !verbatim_dir(cache_dir@) && plain_name(spec.file_name@) && needs_separator(cache_dir@)
            ==> directly_inside(cache_dir@, spec.file_name@, r@),
{
    let r = join_path(cache_dir, spec.file_name);
    proof {
        if !verbatim_dir(cache_dir@) && plain_name(spec.file_name@) {
            lemma_joined_prefix(cache_dir@, spec.file_name@, r@);
        }
    }
    r
}

/// `2` raised to `e`.
pub open spec fn two_pow(e: nat) -> nat
    decreases e,
{
    if e == 0 {
        1
    } else {
        2 * two_pow((e - 1) as nat)
    }
}

/// Number of binary digits of `n` (0 for 0).
pub open spec fn bit_length(n: nat) -> nat
    decreases n,
{
    if n == 0 {
        0
    } else {
        1 + bit_length(n / 2)
    }
}

/// `a / b` rounded to the nearest integer, ties to the even one.
pub open spec fn round_half_even(a: nat, b: nat) -> nat
    recommends
        b > 0,
{
    let q = a / b;
    let r = a % b;
    if 2 * r > b || (2 * r == b && q % 2 == 1) {
        q + 1
    } else {
        q
    }
}

/// The value of `n` converted to a 64-bit float: kept when it needs at most
/// 53 significant bits, else rounded to the nearest multiple of the
/// resulting unit in the last place, ties to an even significand.
pub open spec fn f64_of_nat(n: nat) -> nat {
    if bit_length(n) <= 53 {
        n
    } else {
        let p = two_pow((bit_length(n) - 53) as nat);
        round_half_even(n, p) * p
    }
}

/// The character of a decimal digit.
pub open spec fn digit_char(d: nat) -> char {
    (d + 48) as char
}

/// Decimal notation of `n`, without leading zeros.
pub open spec fn decimal(n: nat) -> Seq<char>
    decreases n,
{
    if n < 10 {
        seq![digit_char(n)]
    } else {
        decimal(n / 10).push(digit_char(n % 10))
    }
}

pub open spec fn kib() -> nat {
    1024
}

pub open spec fn mib() -> nat {
    1048576
}

/// A byte count as short text: whole bytes below 1024, whole KB (rounded
/// half to even) below 1024 * 1024, else MB with one decimal (rounded half to
/// even, from the count's 64-bit float value).
pub open spec fn human_bytes_spec(n: nat) -> Seq<char> {
    if n >= mib() {
        let d = round_half_even(f64_of_nat(n) * 10, mib());
        decimal(d / 10) + "."@ + decimal(d % 10) + " MB"@
    } else if n >= kib() {
        decimal(round_half_even(n, kib())) + " KB"@
    } else {
        decimal(n) + " B"@
    }
}

/// Calls `String::push`.
#[verifier::external_body]
fn push_char(s: &mut String, c: char)
    ensures
        final(s)@ == old(s)@.push(c),
{
    s.push(c);
}

/// Append the decimal notation of `n` to `s`.
pub(crate) fn write_decimal(s: &mut String, n: u64)
    ensures
        final(s)@ == old(s)@ + decimal(n as nat),
    decreases n,
{
    let ghost start = s@;
    if n >= 10 {
        write_decimal(s, n / 10);
    }
    let d: u8 = (n % 10) as u8;
    let c: char = (d + 48) as char;
    proof {
        assert(c == digit_char((n % 10) as nat));
    }
    push_char(s, c);
    proof {
        if n >= 10 {
            assert(s@ =~= start + decimal(n as nat));
        } else {
            assert(s@ =~= start + decimal(n as nat));
        }
    }
}

proof fn lemma_two_pow_pos(e: nat)
    ensures
        two_pow(e) >= 1,
    decreases e,
{
    if e > 0 {
        lemma_two_pow_pos((e - 1) as nat);
    }
}

proof fn lemma_bit_length_bound(n: nat, k: nat)
    requires
        n < two_pow(k),
    ensures
        bit_length(n) <= k,
    decreases k,
{
    if n > 0 {
        assert(k > 0);
        lemma_bit_length_bound(n / 2, (k - 1) as nat);
    }
}

proof fn lemma_bit_length_lower(n: nat, k: nat)
    requires
        bit_length(n) <= k,
    ensures
        n < two_pow(k),
    decreases k,
{
    if n > 0 {
        lemma_bit_length_lower(n / 2, (k - 1) as nat);
    } else {
        lemma_two_pow_pos(k);
    }
}

/// `a / b` rounded half to even, on machine integers.
fn round_half_even_u128(a: u128, b: u128) -> (r: u128)
    requires
        0 < b <= u64::MAX,
        a <= u64::MAX * 16,
    ensures
        r == round_half_even(a as nat, b as nat),
{
    let q = a / b;
    let rem = a % b;
    if 2 * rem > b || (2 * rem == b && q % 2 == 1) {
        q + 1
    } else {
        q
    }
}

proof fn lemma_round_up_bound(n: nat, p: nat)
    requires
        p > 0,
    ensures
        round_half_even(n, p) * p <= n + p,
{
    let q = n / p;
    assert(q * p <= n) by (nonlinear_arith)
        requires
            q == n / p,
            p > 0,
    ;
    assert((q + 1) * p == q * p + p) by (nonlinear_arith);
}

/// The value `n as f64` takes, as an integer.
fn f64_value_of(n: u64) -> (r: u128)
    ensures
        r == f64_of_nat(n as nat),
        r <= u64::MAX as nat + 2048,
{
    let mut x: u64 = n;
    let mut len: u64 = 0;
    proof {
        reveal_with_fuel(two_pow, 65);
        assert(two_pow(64) == 0x1_0000_0000_0000_0000);
        lemma_bit_length_bound(n as nat, 64);
    }
    while x > 0
        invariant
            bit_length(n as nat) == len + bit_length(x as nat),
            bit_length(n as nat) <= 64,
        decreases x,
    {
        x = x / 2;
        len = len + 1;
    }
    if len <= 53 {
        n as u128
    } else {
        let e: u64 = len - 53;
        let mut p: u128 = 1;
        let mut k: u64 = 0;
        proof {
            reveal_with_fuel(two_pow, 12);
            assert(two_pow(11) == 2048);
        }
        while k < e
            invariant
                p == two_pow(k as nat),
                k <= e,
                e <= 11,
                two_pow(11) == 2048,
            decreases e - k,
        {
            proof {
                lemma_two_pow_mono(k as nat + 1, 11);
            }
            p = p * 2;
            k = k + 1;
        }
        proof {
            lemma_two_pow_pos(e as nat);
            lemma_two_pow_mono(e as nat, 11);
            lemma_round_up_bound(n as nat, p as nat);
        }
        let q = round_half_even_u128(n as u128, p);
        q * p
    }
}

proof fn lemma_two_pow_mono(a: nat, b: nat)
    requires
        a <= b,
    ensures
        two_pow(a) <= two_pow(b),
    decreases b,
{
    if a < b {
        lemma_two_pow_mono(a, (b - 1) as nat);
        lemma_two_pow_pos((b - 1) as nat);
    }
}

/// Format a byte count as a short human-readable string.
pub fn human_bytes(n: u64) -> (r: String)
    ensures
        r@ == human_bytes_spec(n as nat),
{
    let mut s = String::new();
    if n >= 1048576 {
        let m = f64_value_of(n);
        let t = m * 10;
        let d = round_half_even_u128(t, 1048576);
        proof {
            assert(d <= t / 1048576 + 1);
        }
        let whole = (d / 10) as u64;
        let tenth = (d % 10) as u64;
        write_decimal(&mut s, whole);
        s.append(".");
        write_decimal(&mut s, tenth);
        s.append(" MB");
    } else if n >= 1024 {
        let d = round_half_even_u128(n as u128, 1024);
        write_decimal(&mut s, d as u64);
        s.append(" KB");
    } else {
        write_decimal(&mut s, n);
        s.append(" B");
    }
    s
}

} // verus!
