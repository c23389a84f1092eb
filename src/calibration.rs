use vstd::prelude::*;

use crate::schematic::{digit_count, is_digit, lemma_digit_count_i64, pow10};

verus! {

/// The spelled name of the digit `k`, for `k` from one to nine.
pub open spec fn word(k: int) -> Seq<u8> {
    if k == 1 {
        seq![111u8, 110, 101]
    } else if k == 2 {
        seq![116u8, 119, 111]
    } else if k == 3 {
        seq![116u8, 104, 114, 101, 101]
    } else if k == 4 {
        seq![102u8, 111, 117, 114]
    } else if k == 5 {
        seq![102u8, 105, 118, 101]
    } else if k == 6 {
        seq![115u8, 105, 120]
    } else if k == 7 {
        seq![115u8, 101, 118, 101, 110]
    } else if k == 8 {
        seq![101u8, 105, 103, 104, 116]
    } else {
        seq![110u8, 105, 110, 101]
    }
}

/// `w` stands in `s` from position `i`.
pub open spec fn word_at(s: Seq<u8>, i: int, w: Seq<u8>) -> bool {
    0 <= i && i + w.len() <= s.len() && s.subrange(i, i + w.len()) == w
}

/// The first digit from one to nine whose name starts at `i`, zero where none does.
pub open spec fn spelled_from(s: Seq<u8>, i: int, k: int) -> int
    decreases 10 - k,
{
    if 1 <= k <= 9 {
        if word_at(s, i, word(k)) {
            k
        } else {
            spelled_from(s, i, k + 1)
        }
    } else {
        0
    }
}

/// The digit that starts at `i`, written or spelled, if any: `None` is zero here.
pub open spec fn digit_at(s: Seq<u8>, i: int, spelled: bool) -> int {
    if is_digit(s[i]) {
        s[i] - 48
    } else if spelled {
        spelled_from(s, i, 1)
    } else {
        0
    }
}

pub open spec fn has_digit_at(s: Seq<u8>, i: int, spelled: bool) -> bool {
    is_digit(s[i]) || (spelled && spelled_from(s, i, 1) != 0)
}

/// The digits found at the first `n` positions of `s`, in order; a spelled digit
/// counts where `spelled` is set, and names may overlap.
pub open spec fn digits_upto(s: Seq<u8>, n: int, spelled: bool) -> Seq<i64>
    decreases n,
{
    if n <= 0 {
        seq![]
    } else if has_digit_at(s, n - 1, spelled) {
        digits_upto(s, n - 1, spelled).push(digit_at(s, n - 1, spelled) as i64)
    } else {
        digits_upto(s, n - 1, spelled)
    }
}

/// The first digit times ten to the number of digits of the last, plus the last;
/// with no digits both are zero.
pub open spec fn calibration_of(ds: Seq<i64>) -> int {
    let f = if ds.len() == 0 { 0 } else { ds[0] as int };
    let l = if ds.len() == 0 { 0 } else { ds.last() as int };
    f * pow10(digit_count(l as nat)) + l
}

proof fn lemma_spelled_range(s: Seq<u8>, i: int, k: int)
    ensures
        0 <= spelled_from(s, i, k) <= 9,
    decreases 10 - k,
{
    if 1 <= k <= 9 {
        lemma_spelled_range(s, i, k + 1);
    }
}

proof fn lemma_digits_range(s: Seq<u8>, n: int, spelled: bool)
    requires
        n <= s.len(),
    ensures
        forall|j: int|
            0 <= j < digits_upto(s, n, spelled).len() ==> 0 <= #[trigger] digits_upto(s, n, spelled)[j]
                <= 9,
    decreases n,
{
    if n > 0 {
        lemma_digits_range(s, n - 1, spelled);
        lemma_spelled_range(s, n - 1, 1);
        let prev = digits_upto(s, n - 1, spelled);
        if has_digit_at(s, n - 1, spelled) {
            let d = digit_at(s, n - 1, spelled);
            assert(0 <= d <= 9);
            assert forall|j: int| 0 <= j < prev.len() + 1 implies 0 <= #[trigger] prev.push(
                d as i64,
            )[j] <= 9 by {
                if j < prev.len() {
                    assert(prev.push(d as i64)[j] == prev[j]);
                }
            }
        }
    }
}

fn word_bytes(k: usize) -> (r: Vec<u8>)
    requires
        1 <= k <= 9,
    ensures
        r@ == word(k as int),
{
    let r = if k == 1 {
        vec![111u8, 110, 101]
    } else if k == 2 {
        vec![116u8, 119, 111]
    } else if k == 3 {
        vec![116u8, 104, 114, 101, 101]
    } else if k == 4 {
        vec![102u8, 111, 117, 114]
    } else if k == 5 {
        vec![102u8, 105, 118, 101]
    } else if k == 6 {
        vec![115u8, 105, 120]
    } else if k == 7 {
        vec![115u8, 101, 118, 101, 110]
    } else if k == 8 {
        vec![101u8, 105, 103, 104, 116]
    } else {
        vec![110u8, 105, 110, 101]
    };
    assert(r@ =~= word(k as int));
    r
}

fn stands_at(line: &[u8], i: usize, w: &Vec<u8>) -> (r: bool)
    ensures
        r == word_at(line@, i as int, w@),
{
    let n = line.len();
    if i > n || w.len() > n - i {
        return false;
    }
    let mut j: usize = 0;
    while j < w.len()
        invariant
            n == line@.len(),
            i + w@.len() <= n,
            j <= w@.len(),
            forall|q: int| 0 <= q < j ==> line@[i + q] == w@[q],
        decreases w@.len() - j,
    {
        if line[i + j] != w[j] {
            assert(line@.subrange(i as int, i + w@.len())[j as int] != w@[j as int]);
            return false;
        }
        j += 1;
    }
    assert(line@.subrange(i as int, i + w@.len()) =~= w@);
    true
}

fn spelled_at(line: &[u8], i: usize) -> (r: i64)
    ensures
        r == spelled_from(line@, i as int, 1),
{
    let mut k: usize = 1;
    while k <= 9
        invariant
            1 <= k <= 10,
            spelled_from(line@, i as int, 1) == spelled_from(line@, i as int, k as int),
        decreases 10 - k,
    {
        let w = word_bytes(k);
        if stands_at(line, i, &w) {
            return k as i64;
        }
        k += 1;
    }
    0
}

/// The digits of a line in order; with `spelled`, the names "one" to "nine" count
/// too, overlapping names each giving their digit.
pub fn line_digits(line: &[u8], spelled: bool) -> (r: Vec<i64>)
    ensures
        r@ == digits_upto(line@, line@.len() as int, spelled),
{
    let mut out: Vec<i64> = Vec::new();
    let mut i: usize = 0;
    while i < line.len()
        invariant
            i <= line@.len(),
            out@ == digits_upto(line@, i as int, spelled),
        decreases line@.len() - i,
    {
        let b = line[i];
        if 48 <= b && b <= 57 {
            out.push((b - 48) as i64);
        } else if spelled {
            let d = spelled_at(line, i);
            if d != 0 {
                out.push(d);
            }
        }
        i += 1;
    }
    out
}

proof fn lemma_pow10_mono(n: nat, m: nat)
    requires
        n <= m,
    ensures
        1 <= pow10(n) <= pow10(m),
    decreases m,
{
    if m > n {
        lemma_pow10_mono(n, (m - 1) as nat);
    } else if n > 0 {
        lemma_pow10_mono((n - 1) as nat, (n - 1) as nat);
    }
}

/// Ten to the number of decimal digits of `l`, which is at most ten to the nineteenth.
fn scale_of(l: i64) -> (r: i128)
    requires
        l >= 0,
    ensures
        r == pow10(digit_count(l as nat)),
        1 <= r <= 10000000000000000000,
{
    proof {
        lemma_digit_count_i64(l as nat);
        reveal_with_fuel(pow10, 20);
        assert(pow10(19) == 10000000000000000000nat);
    }
    let mut v: i64 = l;
    let mut scale: i128 = 10;
    while v >= 10
        invariant
            0 <= v <= l,
            1 <= digit_count(v as nat),
            digit_count(l as nat) <= 19,
            pow10(19) == 10000000000000000000nat,
            digit_count(v as nat) <= digit_count(l as nat),
            scale == pow10((digit_count(l as nat) - digit_count(v as nat) + 1) as nat),
        decreases v,
    {
        assert(digit_count(v as nat) == 1 + digit_count((v / 10) as nat));
        proof {
            let e = (digit_count(l as nat) - digit_count(v as nat) + 1) as nat;
            lemma_pow10_mono(e, 18);
            assert(pow10(e + 1) == 10 * pow10(e));
        }
        v = v / 10;
        scale = scale * 10;
    }
    proof {
        let e = (digit_count(l as nat) - digit_count(v as nat) + 1) as nat;
        assert(digit_count(v as nat) == 1);
        assert(e == digit_count(l as nat));
        lemma_pow10_mono(e, 19);
    }
    scale
}

/// Ten to the number of decimal digits of `l`: the factor that puts a number in
/// front of `l`. `None` where it leaves `i64`.
pub fn digit_scale(l: i64) -> (r: Option<i64>)
    requires
        l >= 0,
    ensures
        pow10(digit_count(l as nat)) <= i64::MAX ==> r == Some(pow10(digit_count(l as nat)) as i64),
        pow10(digit_count(l as nat)) > i64::MAX ==> r is None,
{
    let s = scale_of(l);
    if s > i64::MAX as i128 {
        None
    } else {
        Some(s as i64)
    }
}

/// `f` written in front of `l`: `f` times ten to the number of digits of `l`, plus
/// `l`. `None` where it leaves `i64`.
pub fn join_numbers(f: i64, l: i64) -> (r: Option<i64>)
    requires
        l >= 0,
    ensures
        i64::MIN <= f * pow10(digit_count(l as nat)) + l <= i64::MAX ==> r == Some(
            (f * pow10(digit_count(l as nat)) + l) as i64,
        ),
        !(i64::MIN <= f * pow10(digit_count(l as nat)) + l <= i64::MAX) ==> r is None,
{
    let s = scale_of(l);
    proof {
        assert(-0x8000_0000_0000_0000 * 10000000000000000000 <= (f as int) * (s as int)
            <= 0x7fff_ffff_ffff_ffff * 10000000000000000000) by (nonlinear_arith)
            requires
                -0x8000_0000_0000_0000 <= f <= 0x7fff_ffff_ffff_ffff,
                1 <= s <= 10000000000000000000,
        ;
    }
    let v = (f as i128) * s + (l as i128);
    if v < i64::MIN as i128 || v > i64::MAX as i128 {
        None
    } else {
        Some(v as i64)
    }
}

/// The calibration value of a line's digits: the first written in front of the
/// last; a line without digits is worth zero.
pub fn calibration_value(digits: &Vec<i64>) -> (r: i64)
    requires
        forall|j: int| 0 <= j < digits@.len() ==> 0 <= #[trigger] digits@[j] <= 9,
    ensures
        r == calibration_of(digits@),
        0 <= r <= 99,
{
    if digits.len() == 0 {
        proof {
            reveal_with_fuel(pow10, 2);
        }
        return 0;
    }
    let f = digits[0];
    let l = digits[digits.len() - 1];
    proof {
        reveal_with_fuel(pow10, 2);
        reveal_with_fuel(digit_count, 2);
    }
    if l >= 0 && l < 10 {
        f * 10 + l
    } else {
        0
    }
}

/// The sum of `calibration_of` over the digits of the first `n` non-empty lines.
pub open spec fn calibration_total(lines: Seq<Vec<u8>>, n: int, spelled: bool) -> int
    decreases n,
{
    if n <= 0 {
        0
    } else if lines[n - 1]@.len() == 0 {
        calibration_total(lines, n - 1, spelled)
    } else {
        calibration_total(lines, n - 1, spelled) + calibration_of(
            digits_upto(lines[n - 1]@, lines[n - 1]@.len() as int, spelled),
        )
    }
}

/// The sum of the calibration values of the non-empty lines; `None` where it leaves
/// `i64`.
pub fn calibration_sum(lines: &Vec<Vec<u8>>, spelled: bool) -> (r: Option<i64>)
    ensures
        i64::MIN <= calibration_total(lines@, lines@.len() as int, spelled) <= i64::MAX ==> r
            == Some(calibration_total(lines@, lines@.len() as int, spelled) as i64),
        !(i64::MIN <= calibration_total(lines@, lines@.len() as int, spelled) <= i64::MAX) ==> r is None,
{
    let mut acc: i128 = 0;
    let mut i: usize = 0;
    while i < lines.len()
        invariant
            i <= lines@.len(),
            acc == calibration_total(lines@, i as int, spelled),
            0 <= acc <= 99 * i,
        decreases lines@.len() - i,
    {
        let line = &lines[i];
        if line.len() > 0 {
            let ds = line_digits(line.as_slice(), spelled);
            proof {
                lemma_digits_range(line@, line@.len() as int, spelled);
            }
            let v = calibration_value(&ds);
            proof {
                reveal_with_fuel(pow10, 2);
                reveal_with_fuel(digit_count, 2);
            }
            acc = acc + v as i128;
        }
        i += 1;
    }
    if acc > i64::MAX as i128 {
        None
    } else {
        Some(acc as i64)
    }
}

} // verus!
