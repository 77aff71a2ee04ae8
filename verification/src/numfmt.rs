//! Magnitude formatting: a non-negative integer becomes a short fixed-width
//! display string, either exact (below 1000) or scaled to the largest prefix
//! step that keeps the scaled value below 999.95, shown with three
//! significant digits.

use vstd::prelude::*;

verus! {

/// The two unit systems of the report: binary (1024-based) byte sizes and
/// decimal (1000-based) file counts.
#[derive(Clone, Copy)]
pub enum UnitKind {
    IecBytes,
    SiFiles,
}

/// The scaling step of a unit system.
pub open spec fn base_of(k: UnitKind) -> int {
    match k {
        UnitKind::IecBytes => 1024,
        UnitKind::SiFiles => 1000,
    }
}

/// Unit label behind a magnitude of exactly one.
pub open spec fn singular_of(k: UnitKind) -> Seq<char> {
    match k {
        UnitKind::IecBytes => "B"@,
        UnitKind::SiFiles => "file "@,
    }
}

/// Unit label behind any other magnitude.
pub open spec fn plural_of(k: UnitKind) -> Seq<char> {
    match k {
        UnitKind::IecBytes => "B"@,
        UnitKind::SiFiles => "files"@,
    }
}

/// The scale prefix at step `i` of a unit system.
pub open spec fn prefix_of(k: UnitKind, i: int) -> Seq<char> {
    match k {
        UnitKind::IecBytes => if i == 0 {
            "Ki"@
        } else if i == 1 {
            "Mi"@
        } else if i == 2 {
            "Gi"@
        } else if i == 3 {
            "Ti"@
        } else if i == 4 {
            "Pi"@
        } else {
            "Ei"@
        },
        UnitKind::SiFiles => if i == 0 {
            "k"@
        } else if i == 1 {
            "M"@
        } else if i == 2 {
            "G"@
        } else if i == 3 {
            "T"@
        } else if i == 4 {
            "P"@
        } else {
            "E"@
        },
    }
}

/// `b` to the power `k`.
pub open spec fn pow_u(b: int, k: nat) -> int
    decreases k,
{
    if k == 0 {
        1
    } else {
        b * pow_u(b, (k - 1) as nat)
    }
}

/// The decimal digit `d` as a character.
pub open spec fn digit_char(d: int) -> char {
    if d == 0 {
        '0'
    } else if d == 1 {
        '1'
    } else if d == 2 {
        '2'
    } else if d == 3 {
        '3'
    } else if d == 4 {
        '4'
    } else if d == 5 {
        '5'
    } else if d == 6 {
        '6'
    } else if d == 7 {
        '7'
    } else if d == 8 {
        '8'
    } else {
        '9'
    }
}

/// The decimal digits of `n`, most significant first.
pub open spec fn dec_str(n: nat) -> Seq<char>
    decreases n,
{
    if n < 10 {
        seq![digit_char(n as int)]
    } else {
        dec_str(n / 10) + seq![digit_char((n % 10) as int)]
    }
}

/// Exactly `d` decimal digits of `v`, zero-padded on the left.
pub open spec fn frac_str(v: int, d: nat) -> Seq<char>
    decreases d,
{
    if d == 0 {
        Seq::empty()
    } else {
        frac_str(v / 10, (d - 1) as nat) + seq![digit_char(v % 10)]
    }
}

/// `k` spaces.
pub open spec fn spaces(k: nat) -> Seq<char>
    decreases k,
{
    if k == 0 {
        Seq::empty()
    } else {
        spaces((k - 1) as nat) + seq![' ']
    }
}

/// Right-align into a field of five characters.
pub open spec fn pad5(s: Seq<char>) -> Seq<char> {
    if s.len() >= 5 {
        s
    } else {
        spaces((5 - s.len()) as nat) + s
    }
}

/// The prefix step for magnitude `n`: the largest step (at most 5) whose unit
/// keeps the scaled value below 999.95.
pub open spec fn scale_idx(n: int, b: int, i: nat) -> nat
    decreases 5 - i,
    when i <= 5
{
    if i < 5 && n * 100 >= pow_u(b, (i + 1) as nat) * 99995 {
        scale_idx(n, b, (i + 1) as nat)
    } else {
        i
    }
}

/// `n / unit`, rounded to `d` decimal places and carrying them as trailing
/// digits.
pub open spec fn scaled_val(n: int, unit: int, d: nat) -> int {
    (n * pow_u(10, d) + unit / 2) / unit
}

/// A scaled value printed with `d` decimal places.
pub open spec fn decimal_str(scaled: int, d: nat) -> Seq<char> {
    dec_str((scaled / pow_u(10, d)) as nat) + seq!['.'] + frac_str(scaled % pow_u(10, d), d)
}

/// The whole formatting contract: an exact, padded integer with its unit
/// label below 1000 (singular at exactly one), otherwise the value scaled to
/// its prefix step with three significant digits.
pub open spec fn fmt_spec(n: u64, k: UnitKind) -> Seq<char> {
    if n == 1 {
        pad5(dec_str(1)) + seq![' '] + singular_of(k)
    } else if n < 1000 {
        pad5(dec_str(n as nat)) + seq![' '] + plural_of(k)
    } else {
        let b = base_of(k);
        let idx = scale_idx(n as int, b, 0);
        let unit = pow_u(b, (idx + 1) as nat);
        let d: nat = if (n as int) * 10000 < unit * 99995 {
            3
        } else if (n as int) * 1000 < unit * 99995 {
            2
        } else {
            1
        };
        decimal_str(scaled_val(n as int, unit, d), d) + seq![' '] + prefix_of(k, idx as int)
            + plural_of(k)
    }
}

/// Powers of a positive base are positive.
proof fn lemma_pow_pos(b: int, k: nat)
    requires
        b >= 1,
    ensures
        pow_u(b, k) >= 1,
    decreases k,
{
    if k > 0 {
        lemma_pow_pos(b, (k - 1) as nat);
        assert(b * pow_u(b, (k - 1) as nat) >= 1) by (nonlinear_arith)
            requires
                b >= 1,
                pow_u(b, (k - 1) as nat) >= 1,
        ;
    }
}

/// Powers grow with the base.
proof fn lemma_pow_mono_base(b1: int, b2: int, k: nat)
    requires
        1 <= b1 <= b2,
    ensures
        pow_u(b1, k) <= pow_u(b2, k),
    decreases k,
{
    if k > 0 {
        lemma_pow_mono_base(b1, b2, (k - 1) as nat);
        lemma_pow_pos(b1, (k - 1) as nat);
        assert(b1 * pow_u(b1, (k - 1) as nat) <= b2 * pow_u(b2, (k - 1) as nat))
            by (nonlinear_arith)
            requires
                1 <= b1 <= b2,
                1 <= pow_u(b1, (k - 1) as nat) <= pow_u(b2, (k - 1) as nat),
        ;
    }
}

/// Powers grow with the exponent.
proof fn lemma_pow_mono_k(b: int, k1: nat, k2: nat)
    requires
        b >= 1,
        k1 <= k2,
    ensures
        pow_u(b, k1) <= pow_u(b, k2),
    decreases k2,
{
    if k1 < k2 {
        lemma_pow_mono_k(b, k1, (k2 - 1) as nat);
        lemma_pow_pos(b, (k2 - 1) as nat);
        assert(pow_u(b, (k2 - 1) as nat) <= b * pow_u(b, (k2 - 1) as nat)) by (nonlinear_arith)
            requires
                b >= 1,
                pow_u(b, (k2 - 1) as nat) >= 1,
        ;
    }
}

/// Every unit this formatter scales by fits comfortably in 64 bits.
proof fn lemma_pow_cap(b: int, k: nat)
    requires
        b == 1000 || b == 1024,
        k <= 6,
    ensures
        1 <= pow_u(b, k) <= 0x1000000000000000,
{
    lemma_pow_pos(b, k);
    lemma_pow_mono_base(b, 1024, k);
    lemma_pow_mono_k(1024, k, 6);
    assert(pow_u(1024, 6) == 0x1000000000000000) by {
        reveal_with_fuel(pow_u, 7);
    }
}

/// Walking the scale steps from `i` stops exactly at `k` when every unit up
/// to `k` was reached and (below the cap) the next one is not.
proof fn lemma_scale_idx_reaches(n: int, b: int, i: nat, k: nat)
    requires
        b >= 1,
        i <= k <= 5,
        forall|j: int| i <= j < k ==> n * 100 >= #[trigger] pow_u(b, (j + 1) as nat) * 99995,
        k < 5 ==> n * 100 < pow_u(b, (k + 1) as nat) * 99995,
    ensures
        scale_idx(n, b, i) == k,
    decreases k - i,
{
    if i == k {
    } else {
        assert(n * 100 >= pow_u(b, (i + 1) as nat) * 99995);
        lemma_scale_idx_reaches(n, b, (i + 1) as nat, k);
    }
}

/// Prefix-step boundaries: while the magnitude stays under
/// `base^(k+1) * 999.95` (and, past step zero, has reached
/// `base^k * 999.95`), it is shown at prefix step `k`. In particular the
/// magnitude one unit below `base^(k+1) * 999.95` stays at step `k`.
pub proof fn lemma_prefix_boundary(n: int, b: int, k: nat)
    requires
        b == 1000 || b == 1024,
        k < 5,
        k > 0 ==> n * 100 >= pow_u(b, k) * 99995,
        n * 100 < pow_u(b, (k + 1) as nat) * 99995,
    ensures
        scale_idx(n, b, 0) == k,
{
    assert forall|j: int| 0 <= j < k implies n * 100 >= #[trigger] pow_u(b, (j + 1) as nat)
        * 99995 by {
        lemma_pow_mono_k(b, (j + 1) as nat, k);
        assert(pow_u(b, (j + 1) as nat) * 99995 <= pow_u(b, k) * 99995);
    }
    lemma_scale_idx_reaches(n, b, 0, k);
}

/// The character for one decimal digit.
fn digit_str(d: u64) -> (s: &'static str)
    requires
        d < 10,
    ensures
        s@ == seq![digit_char(d as int)],
{
    let s: &'static str = if d == 0 {
        "0"
    } else if d == 1 {
        "1"
    } else if d == 2 {
        "2"
    } else if d == 3 {
        "3"
    } else if d == 4 {
        "4"
    } else if d == 5 {
        "5"
    } else if d == 6 {
        "6"
    } else if d == 7 {
        "7"
    } else if d == 8 {
        "8"
    } else {
        "9"
    };
    proof {
        reveal_strlit("0");
        reveal_strlit("1");
        reveal_strlit("2");
        reveal_strlit("3");
        reveal_strlit("4");
        reveal_strlit("5");
        reveal_strlit("6");
        reveal_strlit("7");
        reveal_strlit("8");
        reveal_strlit("9");
        assert(s@ =~= seq![digit_char(d as int)]);
    }
    s
}

/// The decimal digits of `n`.
fn dec_to_string(n: u128) -> (s: String)
    ensures
        s@ == dec_str(n as nat),
    decreases n,
{
    if n < 10 {
        digit_str(n as u64).to_owned()
    } else {
        let mut s = dec_to_string(n / 10);
        s.append(digit_str((n % 10) as u64));
        s
    }
}

/// Exactly `d` decimal digits of `v`, zero-padded.
fn frac_to_string(v: u128, d: u64) -> (s: String)
    ensures
        s@ == frac_str(v as int, d as nat),
    decreases d,
{
    if d == 0 {
        String::new()
    } else {
        let mut s = frac_to_string(v / 10, d - 1);
        s.append(digit_str((v % 10) as u64));
        s
    }
}

/// Right-align into five characters.
fn pad5_string(s: String) -> (r: String)
    ensures
        r@ == pad5(s@),
{
    let n = s.as_str().unicode_len();
    if n >= 5 {
        return s;
    }
    let mut r = String::new();
    let mut j: usize = n;
    while j < 5
        invariant
            n < 5,
            n <= j <= 5,
            n == s@.len(),
            r@ == spaces((j - n) as nat),
        decreases 5 - j,
    {
        r.append(" ");
        j += 1;
        proof {
            reveal_strlit(" ");
            assert(r@ =~= spaces((j - n) as nat));
        }
    }
    r.append(s.as_str());
    r
}

/// The scaling step of a unit system.
fn base_exec(k: UnitKind) -> (b: u64)
    ensures
        b as int == base_of(k),
{
    match k {
        UnitKind::IecBytes => 1024,
        UnitKind::SiFiles => 1000,
    }
}

/// Unit label behind a magnitude of exactly one.
fn singular_exec(k: UnitKind) -> (s: &'static str)
    ensures
        s@ == singular_of(k),
{
    match k {
        UnitKind::IecBytes => "B",
        UnitKind::SiFiles => "file ",
    }
}

/// Unit label behind any other magnitude.
fn plural_exec(k: UnitKind) -> (s: &'static str)
    ensures
        s@ == plural_of(k),
{
    match k {
        UnitKind::IecBytes => "B",
        UnitKind::SiFiles => "files",
    }
}

/// The scale prefix at a step.
fn prefix_exec(k: UnitKind, i: usize) -> (s: &'static str)
    ensures
        s@ == prefix_of(k, i as int),
{
    match k {
        UnitKind::IecBytes => if i == 0 {
            "Ki"
        } else if i == 1 {
            "Mi"
        } else if i == 2 {
            "Gi"
        } else if i == 3 {
            "Ti"
        } else if i == 4 {
            "Pi"
        } else {
            "Ei"
        },
        UnitKind::SiFiles => if i == 0 {
            "k"
        } else if i == 1 {
            "M"
        } else if i == 2 {
            "G"
        } else if i == 3 {
            "T"
        } else if i == 4 {
            "P"
        } else {
            "E"
        },
    }
}

/// A scaled value printed with `d` decimal places.
fn decimal_string(scaled: u128, p10: u128, d: u64) -> (s: String)
    requires
        p10 as int == pow_u(10, d as nat),
        p10 >= 1,
    ensures
        s@ == decimal_str(scaled as int, d as nat),
{
    let mut s = dec_to_string(scaled / p10);
    s.append(".");
    let f = frac_to_string(scaled % p10, d);
    s.append(f.as_str());
    proof {
        reveal_strlit(".");
        assert(s@ =~= decimal_str(scaled as int, d as nat));
    }
    s
}

/// Format a magnitude under a unit system; the result is exactly
/// `fmt_spec(n, k)`.
pub fn format_magnitude(n: u64, k: UnitKind) -> (s: String)
    ensures
        s@ == fmt_spec(n, k),
{
    proof {
        reveal_strlit(" ");
    }
    if n == 1 {
        let mut s = pad5_string(dec_to_string(1));
        s.append(" ");
        s.append(singular_exec(k));
        proof {
            assert(s@ =~= fmt_spec(n, k));
        }
        s
    } else if n < 1000 {
        let mut s = pad5_string(dec_to_string(n as u128));
        s.append(" ");
        s.append(plural_exec(k));
        proof {
            assert(s@ =~= fmt_spec(n, k));
        }
        s
    } else {
        let b: u64 = base_exec(k);
        let ghost bi = b as int;
        let ghost ni = n as int;
        let mut idx: usize = 0;
        let mut unit: u64 = b;
        proof {
            lemma_pow_cap(bi, 1);
            assert(pow_u(bi, 1) == bi) by {
                reveal_with_fuel(pow_u, 2);
            }
        }
        while idx < 5 && (n as u128) * 100 >= (unit as u128) * 99995
            invariant
                0 <= idx <= 5,
                b as int == bi,
                n as int == ni,
                bi == base_of(k),
                unit as int == pow_u(bi, (idx + 1) as nat),
                unit >= 1,
                scale_idx(ni, bi, 0) == scale_idx(ni, bi, idx as nat),
        decreases 5 - idx,
        {
            proof {
                lemma_pow_cap(bi, (idx + 2) as nat);
                assert(pow_u(bi, (idx + 2) as nat) == bi * pow_u(bi, (idx + 1) as nat));
                assert(scale_idx(ni, bi, idx as nat) == scale_idx(ni, bi, (idx + 1) as nat));
            }
            unit = unit * b;
            idx += 1;
        }
        proof {
            assert(scale_idx(ni, bi, idx as nat) == idx as nat);
        }
        let (d, p10): (u64, u128) = if (n as u128) * 10000 < (unit as u128) * 99995 {
            (3, 1000)
        } else if (n as u128) * 1000 < (unit as u128) * 99995 {
            (2, 100)
        } else {
            (1, 10)
        };
        proof {
            assert(pow_u(10, 1) == 10 && pow_u(10, 2) == 100 && pow_u(10, 3) == 1000) by {
                reveal_with_fuel(pow_u, 4);
            }
        }
        let scaled: u128 = ((n as u128) * p10 + ((unit / 2) as u128)) / (unit as u128);
        let mut s = decimal_string(scaled, p10, d);
        s.append(" ");
        s.append(prefix_exec(k, idx));
        s.append(plural_exec(k));
        proof {
            assert(scaled as int == scaled_val(ni, unit as int, d as nat));
            assert(s@ =~= fmt_spec(n, k));
        }
        s
    }
}

/// Binary-prefixed byte sizes, short form.
pub struct IecSizeShort(pub u64);

/// Decimal-prefixed file counts, short form.
pub struct SiFilesShort(pub u64);

impl IecSizeShort {
    /// The display string for this size.
    pub fn format(&self) -> (s: String)
        ensures
            s@ == fmt_spec(self.0, UnitKind::IecBytes),
    {
        format_magnitude(self.0, UnitKind::IecBytes)
    }
}

impl SiFilesShort {
    /// The display string for this count.
    pub fn format(&self) -> (s: String)
        ensures
            s@ == fmt_spec(self.0, UnitKind::SiFiles),
    {
        format_magnitude(self.0, UnitKind::SiFiles)
    }
}

} // verus!
