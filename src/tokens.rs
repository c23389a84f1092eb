use vstd::prelude::*;

use crate::schematic::{digits_value, is_digit, lemma_run_digits, run_len};

verus! {

/// A number starts at `i`: a digit not preceded by a digit.
pub open spec fn number_starts(s: Seq<u8>, i: int) -> bool {
    0 <= i < s.len() && is_digit(s[i]) && (i == 0 || !is_digit(s[i - 1]))
}

/// The number that starts at `i`, negative where a minus sign stands right before it.
pub open spec fn signed_number_at(s: Seq<u8>, i: int) -> int {
    let v = digits_value(s, i, run_len(s, i)) as int;
    if i > 0 && s[i - 1] == 45 {
        -v
    } else {
        v
    }
}

/// The numbers that start before position `n`, in order.
pub open spec fn numbers_upto(s: Seq<u8>, n: int) -> Seq<int>
    decreases n,
{
    if n <= 0 {
        seq![]
    } else if number_starts(s, n - 1) {
        numbers_upto(s, n - 1).push(signed_number_at(s, n - 1))
    } else {
        numbers_upto(s, n - 1)
    }
}

proof fn lemma_run_step(s: Seq<u8>, i: int)
    requires
        0 <= i < s.len(),
        is_digit(s[i]),
    ensures
        run_len(s, i) == 1 + run_len(s, i + 1),
{
}

/// The value of the digits from `start` up to `end`, and whether a digit follows.
fn read_digits(line: &[u8], start: usize) -> (r: (Option<i128>, usize))
    requires
        start < line@.len(),
        is_digit(line@[start as int]),
    ensures
        r.1 == start + run_len(line@, start as int),
        r.1 <= line@.len(),
        digits_value(line@, start as int, run_len(line@, start as int)) <= i64::MAX + 1 ==> r.0
            == Some(digits_value(line@, start as int, run_len(line@, start as int)) as i128),
        digits_value(line@, start as int, run_len(line@, start as int)) > i64::MAX + 1 ==> r.0 is None,
{
    let ghost s = line@;
    let mut acc: i128 = 0;
    let mut big = false;
    let mut i: usize = start;
    while i < line.len() && 48 <= line[i] && line[i] <= 57
        invariant
            s == line@,
            start <= i <= s.len(),
            run_len(s, start as int) == (i - start) + run_len(s, i as int),
            forall|j: int| 0 <= j < i - start ==> #[trigger] is_digit(s[start + j]),
            !big ==> acc == digits_value(s, start as int, (i - start) as nat) && acc <= i64::MAX + 1,
            big ==> digits_value(s, start as int, (i - start) as nat) > i64::MAX + 1,
        decreases s.len() - i,
    {
        let d = (line[i] - 48) as i128;
        proof {
            lemma_run_step(s, i as int);
            assert(is_digit(s[start + (i - start)]));
            let k = (i - start) as nat;
            assert(digits_value(s, start as int, k + 1) == digits_value(s, start as int, k) * 10 + d);
        }
        if !big {
            acc = acc * 10 + d;
            if acc > i64::MAX as i128 + 1 {
                big = true;
            }
        }
        i += 1;
    }
    if big {
        (None, i)
    } else {
        (Some(acc), i)
    }
}

/// The integers written in a line, in order; a minus sign right before a number
/// makes it negative. `None` where one leaves `i64`.
pub fn numbers_in(line: &[u8]) -> (r: Option<Vec<i64>>)
    ensures
        r matches Some(v) ==> v@.len() == numbers_upto(line@, line@.len() as int).len() && forall|
            j: int,
        | 0 <= j < v@.len() ==> v@[j] == #[trigger] numbers_upto(line@, line@.len() as int)[j],
        r is None ==> exists|j: int|
            0 <= j < numbers_upto(line@, line@.len() as int).len() && !(i64::MIN
                <= #[trigger] numbers_upto(line@, line@.len() as int)[j] <= i64::MAX),
{
    let ghost s = line@;
    let mut out: Vec<i64> = Vec::new();
    let mut i: usize = 0;
    while i < line.len()
        invariant
            s == line@,
            i <= s.len(),
            out@.len() == numbers_upto(s, i as int).len(),
            forall|j: int| 0 <= j < out@.len() ==> out@[j] == #[trigger] numbers_upto(s, i as int)[j],
            i > 0 && i < s.len() ==> !(is_digit(s[i - 1]) && is_digit(s[i as int])),
        decreases s.len() - i,
    {
        let b = line[i];
        if 48 <= b && b <= 57 {
            let (value, end) = read_digits(line, i);
            let ghost start = i as int;
            let ghost v = digits_value(s, start, run_len(s, start));
            let negative = i > 0 && line[i - 1] == 45;
            let ghost before = numbers_upto(s, start);
            assert(number_starts(s, start));
            assert(numbers_upto(s, start + 1) == before.push(signed_number_at(s, start)));
            let n = match value {
                Some(x) => {
                    if negative {
                        if -x < i64::MIN as i128 {
                            proof {
                                assert(numbers_upto(s, start + 1)[before.len() as int] < i64::MIN);
                                lemma_prefix_kept(s, start + 1, s.len() as int, before.len() as int);
                            }
                            return None;
                        }
                        (-x) as i64
                    } else {
                        if x > i64::MAX as i128 {
                            proof {
                                assert(numbers_upto(s, start + 1)[before.len() as int] > i64::MAX);
                                lemma_prefix_kept(s, start + 1, s.len() as int, before.len() as int);
                            }
                            return None;
                        }
                        x as i64
                    }
                },
                None => {
                    proof {
                        assert(!(i64::MIN <= numbers_upto(s, start + 1)[before.len() as int] <= i64::MAX));
                        lemma_prefix_kept(s, start + 1, s.len() as int, before.len() as int);
                    }
                    return None;
                },
            };
            out.push(n);
            proof {
                lemma_inside_run(s, start, end as int);
                assert forall|j: int| 0 <= j < out@.len() implies out@[j] == #[trigger] numbers_upto(
                    s,
                    end as int,
                )[j] by {
                    assert(numbers_upto(s, end as int) == numbers_upto(s, start + 1));
                }
                if end > 0 && end < s.len() {
                    assert(!is_digit(s[end as int])) by {
                        lemma_run_at_end(s, start);
                    }
                }
            }
            i = end;
        } else {
            i += 1;
        }
    }
    Some(out)
}

/// A number seen is kept in every longer prefix.
proof fn lemma_prefix_kept(s: Seq<u8>, k: int, n: int, j: int)
    requires
        0 <= k <= n,
        0 <= j < numbers_upto(s, k).len(),
    ensures
        j < numbers_upto(s, n).len(),
        numbers_upto(s, n)[j] == numbers_upto(s, k)[j],
    decreases n - k,
{
    if k < n {
        lemma_prefix_kept(s, k, n - 1, j);
    }
}

proof fn lemma_run_at_end(s: Seq<u8>, i: int)
    requires
        0 <= i,
    ensures
        !(i + run_len(s, i) < s.len() && is_digit(s[i + run_len(s, i)])),
    decreases s.len() - i,
{
    if 0 <= i < s.len() && is_digit(s[i]) {
        lemma_run_at_end(s, i + 1);
    }
}

/// No number starts inside the run of digits that begins at `start`.
proof fn lemma_inside_run(s: Seq<u8>, start: int, end: int)
    requires
        number_starts(s, start),
        end == start + run_len(s, start),
    ensures
        numbers_upto(s, end) == numbers_upto(s, start + 1),
    decreases end - start,
{
    lemma_inside_from(s, start, start + 1, end);
}

proof fn lemma_inside_from(s: Seq<u8>, start: int, k: int, end: int)
    requires
        0 <= start < k <= end,
        end == start + run_len(s, start),
    ensures
        numbers_upto(s, end) == numbers_upto(s, k),
    decreases end - k,
{
    if k < end {
        lemma_inside_from(s, start, k + 1, end);
        lemma_run_digits(s, start, k - 1 - start);
        assert(is_digit(s[k - 1]));
        assert(!number_starts(s, k));
    }
}

} // verus!
