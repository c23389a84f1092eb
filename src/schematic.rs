use vstd::prelude::*;

verus! {

/// Why a part number could not be read or summed.
#[derive(Debug, Clone, Copy, PartialEq, Eq, Structural)]
pub enum PartNumError {
    /// No digit stands at the position.
    NoDigits,
    /// The number, or a sum of numbers, leaves `i64`.
    TooLarge,
}

/// A number in the schematic: `hay` is the schematic as one padded row-major
/// text, `idx` the position of the number's first digit, `width` the row length.
#[derive(Debug, Clone, Copy)]
pub struct PartNum<'a> {
    pub hay: &'a [u8],
    pub idx: usize,
    pub width: usize,
}

pub open spec fn is_digit(b: u8) -> bool {
    48 <= b <= 57
}

/// The number of digits in a row from position `i` of `s`.
pub open spec fn run_len(s: Seq<u8>, i: int) -> nat
    decreases s.len() - i,
{
    if 0 <= i < s.len() && is_digit(s[i]) {
        1 + run_len(s, i + 1)
    } else {
        0
    }
}

/// The decimal value of the `k` digits from position `i` of `s`.
pub open spec fn digits_value(s: Seq<u8>, i: int, k: nat) -> nat
    decreases k,
{
    if k == 0 {
        0
    } else {
        digits_value(s, i, (k - 1) as nat) * 10 + (s[i + k - 1] - 48) as nat
    }
}

/// The number whose first digit stands at `i`, where there is one.
pub open spec fn number_at(s: Seq<u8>, i: int) -> nat {
    digits_value(s, i, run_len(s, i))
}

/// Reading the number at `i`: no digit there, a value beyond `i64`, or the value.
pub open spec fn num_result(s: Seq<u8>, i: int) -> Result<i64, PartNumError> {
    if run_len(s, i) == 0 {
        Err(PartNumError::NoDigits)
    } else if number_at(s, i) > i64::MAX {
        Err(PartNumError::TooLarge)
    } else {
        Ok(number_at(s, i) as i64)
    }
}

/// How many decimal digits `v` has; zero is written with one.
pub open spec fn digit_count(v: nat) -> nat
    decreases v,
{
    if v < 10 {
        1
    } else {
        1 + digit_count(v / 10)
    }
}

/// Position `x` touches a number of `len` digits at `idx` in rows of `width`: it is
/// just left or right of it, or on the row above or below from one left of it to
/// one right of it.
pub open spec fn touches(idx: int, len: int, width: int, x: int) -> bool {
    ||| x == idx - 1
    ||| x == idx + len
    ||| idx - 1 - width <= x < idx + len + 1 - width
    ||| idx - 1 + width <= x < idx + len + 1 + width
}

pub open spec fn symbol_char(c: char) -> bool {
    !(('0' <= c && c <= '9') || c == '.')
}

pub proof fn lemma_run_digits(s: Seq<u8>, i: int, k: int)
    requires
        0 <= i,
        0 <= k < run_len(s, i),
    ensures
        is_digit(s[i + k]),
        run_len(s, i) == k + run_len(s, i + k),
    decreases k,
{
    if k > 0 {
        lemma_run_digits(s, i + 1, k - 1);
    }
}

proof fn lemma_value_grows(s: Seq<u8>, i: int, k: nat, m: nat)
    requires
        k <= m,
        forall|j: int| 0 <= j < m ==> #[trigger] is_digit(s[i + j]),
    ensures
        digits_value(s, i, k) <= digits_value(s, i, m),
    decreases m - k,
{
    if k < m {
        lemma_value_grows(s, i, k, (m - 1) as nat);
        assert(is_digit(s[i + m - 1]));
    }
}

pub open spec fn pow10(n: nat) -> nat
    decreases n,
{
    if n == 0 {
        1
    } else {
        10 * pow10((n - 1) as nat)
    }
}

proof fn lemma_digit_count_le(v: nat, n: nat)
    requires
        1 <= n,
        v < pow10(n),
    ensures
        digit_count(v) <= n,
    decreases n,
{
    if v >= 10 {
        assert(n >= 2) by {
            if n == 1 {
                assert(pow10(1) == 10 * pow10(0));
            }
        }
        lemma_digit_count_le(v / 10, (n - 1) as nat);
    }
}

pub proof fn lemma_digit_count_i64(v: nat)
    requires
        v <= i64::MAX,
    ensures
        1 <= digit_count(v) <= 19,
{
    reveal_with_fuel(pow10, 20);
    assert(pow10(19) == 10000000000000000000nat);
    lemma_digit_count_le(v, 19);
}

impl<'a> PartNum<'a> {
    pub fn new(hay: &'a [u8], idx: usize, width: usize) -> (r: PartNum<'a>)
        ensures
            r.hay@ == hay@,
            r.idx == idx,
            r.width == width,
    {
        PartNum { idx, hay, width }
    }

    /// The number made of the digits in a row from `idx`.
    pub fn num(&self) -> (r: Result<i64, PartNumError>)
        ensures
            r == num_result(self.hay@, self.idx as int),
    {
        let ghost s = self.hay@;
        let ghost start = self.idx as int;
        let mut acc: i64 = 0;
        let mut i: usize = self.idx;
        while i < self.hay.len() && 48 <= self.hay[i] && self.hay[i] <= 57
            invariant
                s == self.hay@,
                start == self.idx,
                start <= i,
                forall|j: int| 0 <= j < i - start ==> #[trigger] is_digit(s[start + j]) && start + j
                    < s.len(),
                run_len(s, start) == (i - start) + run_len(s, i as int),
                acc == digits_value(s, start, (i - start) as nat),
            decreases s.len() - i,
        {
            let d = (self.hay[i] - 48) as i64;
            if acc > (i64::MAX - d) / 10 {
                proof {
                    let k = (i - start) as nat;
                    assert(digits_value(s, start, k + 1) == acc * 10 + d);
                    assert forall|j: int| 0 <= j < k + 1 implies #[trigger] is_digit(s[start + j]) by {
                        if j == k {
                            assert(s[start + j] == s[i as int]);
                        }
                    }
                    let full = run_len(s, start);
                    assert(run_len(s, i as int) >= 1);
                    assert forall|j: int| 0 <= j < full implies #[trigger] is_digit(s[start + j]) by {
                        lemma_run_digits(s, start, j);
                    }
                    lemma_value_grows(s, start, k + 1, full);
                }
                return Err(PartNumError::TooLarge);
            }
            acc = acc * 10 + d;
            proof {
                assert(s[i as int] == self.hay@[i as int]);
                assert(run_len(s, i as int) == 1 + run_len(s, i + 1));
                assert(is_digit(s[start + (i - start)]));
            }
            i += 1;
        }
        proof {
            assert(run_len(s, i as int) == 0);
        }
        if i == self.idx {
            return Err(PartNumError::NoDigits);
        }
        Ok(acc)
    }

    /// Whether `sym` marks a part: anything but a digit or a dot.
    pub fn is_symbol(sym: char) -> (r: bool)
        ensures
            r == symbol_char(sym),
    {
        match sym {
            '0'..='9' => false,
            '.' => false,
            _ => true,
        }
    }

    /// Whether position `idx` touches this number.
    pub fn is_adjacent(&self, idx: usize) -> (r: Result<bool, PartNumError>)
        ensures
            r is Ok <==> num_result(self.hay@, self.idx as int) is Ok,
            r matches Err(e) ==> num_result(self.hay@, self.idx as int) == Err::<i64, PartNumError>(e),
            r matches Ok(b) ==> b == touches(
                self.idx as int,
                digit_count(number_at(self.hay@, self.idx as int)) as int,
                self.width as int,
                idx as int,
            ),
    {
        let n = self.num()?;
        let len = digits_of(n);
        Ok(adjacent_at(self.idx, len, self.width, idx))
    }

    /// Whether a symbol touches this number; a position that holds no number
    /// touches nothing.
    pub fn is_valid(&self) -> (r: Result<bool, PartNumError>)
        ensures
            r == Ok::<bool, PartNumError>(
                run_len(self.hay@, self.idx as int) > 0 && number_at(self.hay@, self.idx as int)
                    <= i64::MAX && exists|i: int|
                    0 <= i < self.hay@.len() && symbol_char(self.hay@[i] as char) && #[trigger] touches(
                        self.idx as int,
                        digit_count(number_at(self.hay@, self.idx as int)) as int,
                        self.width as int,
                        i,
                    ),
            ),
    {
        let n = match self.num() {
            Ok(n) => n,
            Err(_) => {
                return Ok(false);
            },
        };
        let len = digits_of(n);
        let mut i: usize = 0;
        while i < self.hay.len()
            invariant
                i <= self.hay@.len(),
                num_result(self.hay@, self.idx as int) is Ok,
                len == digit_count(number_at(self.hay@, self.idx as int)),
                forall|j: int|
                    0 <= j < i ==> !(symbol_char(self.hay@[j] as char) && #[trigger] touches(
                        self.idx as int,
                        len as int,
                        self.width as int,
                        j,
                    )),
            decreases self.hay@.len() - i,
        {
            let c = self.hay[i] as char;
            if Self::is_symbol(c) && adjacent_at(self.idx, len, self.width, i) {
                assert(symbol_char(self.hay@[i as int] as char));
                assert(touches(
                    self.idx as int,
                    digit_count(number_at(self.hay@, self.idx as int)) as int,
                    self.width as int,
                    i as int,
                ));
                assert(exists|j: int|
                    0 <= j < self.hay@.len() && symbol_char(self.hay@[j] as char) && #[trigger] touches(
                        self.idx as int,
                        digit_count(number_at(self.hay@, self.idx as int)) as int,
                        self.width as int,
                        j,
                    ));
                return Ok(true);
            }
            i += 1;
        }
        Ok(false)
    }
}

/// How many decimal digits `n` has.
fn digits_of(n: i64) -> (r: usize)
    requires
        n >= 0,
    ensures
        r == digit_count(n as nat),
{
    let mut v: i64 = n;
    let mut c: usize = 1;
    proof {
        lemma_digit_count_i64(n as nat);
    }
    while v >= 10
        invariant
            0 <= v <= n,
            c + digit_count(v as nat) == 1 + digit_count(n as nat),
            digit_count(n as nat) <= 19,
            c >= 1,
        decreases v,
    {
        v = v / 10;
        c += 1;
    }
    c
}

fn adjacent_at(idx: usize, len: usize, width: usize, x: usize) -> (r: bool)
    ensures
        r == touches(idx as int, len as int, width as int, x as int),
{
    let a = idx as i128;
    let l = len as i128;
    let w = width as i128;
    let x = x as i128;
    x == a - 1 || x == a + l || (a - 1 - w <= x && x < a + l + 1 - w) || (a - 1 + w <= x && x < a + l
        + 1 + w)
}

/// `s` with every line break replaced by two dots.
pub open spec fn breaks_as_dots(s: Seq<u8>) -> Seq<u8>
    decreases s.len(),
{
    if s.len() == 0 {
        seq![]
    } else if s.last() == 10 {
        breaks_as_dots(s.drop_last()) + seq![46u8, 46u8]
    } else {
        breaks_as_dots(s.drop_last()).push(s.last())
    }
}

pub open spec fn dots(n: nat) -> Seq<u8> {
    Seq::new(n, |_i: int| 46u8)
}

/// The position of the first line break of `s`.
pub open spec fn first_break(s: Seq<u8>, i: int) -> bool {
    0 <= i < s.len() && s[i] == 10 && forall|j: int| 0 <= j < i ==> s[j] != 10
}

fn push_dots(out: &mut Vec<u8>, n: usize)
    ensures
        final(out)@ == old(out)@ + dots(n as nat),
{
    let mut k: usize = 0;
    while k < n
        invariant
            k <= n,
            out@ == old(out)@ + dots(k as nat),
        decreases n - k,
    {
        out.push(46u8);
        proof {
            assert(old(out)@ + dots((k + 1) as nat) =~= (old(out)@ + dots(k as nat)).push(46u8));
        }
        k += 1;
    }
}

/// The schematic as one row-major text whose rows are two longer than the lines,
/// framed by dots so that every neighbour of a number lies inside it; the row
/// length comes with it. `None` where the text has no line break.
pub fn pad_schematic(text: &[u8]) -> (r: Option<(Vec<u8>, usize)>)
    requires
        text@.len() <= usize::MAX - 3,
    ensures
        r is None <==> forall|j: int| 0 <= j < text@.len() ==> text@[j] != 10,
        r matches Some((hay, width)) ==> exists|i: int|
            first_break(text@, i) && width == i + 2 && hay@ == dots((width + 1) as nat)
                + breaks_as_dots(text@) + dots((width - 1) as nat),
{
    let ghost s = text@;
    let mut i: usize = 0;
    while i < text.len() && text[i] != 10
        invariant
            s == text@,
            i <= s.len(),
            forall|j: int| 0 <= j < i ==> s[j] != 10,
        decreases s.len() - i,
    {
        i += 1;
    }
    if i == text.len() {
        return None;
    }
    let width = i + 2;
    let mut out: Vec<u8> = Vec::new();
    push_dots(&mut out, width + 1);
    let ghost head = out@;
    let mut k: usize = 0;
    while k < text.len()
        invariant
            s == text@,
            k <= s.len(),
            out@ == head + breaks_as_dots(s.subrange(0, k as int)),
        decreases s.len() - k,
    {
        let b = text[k];
        proof {
            assert(s.subrange(0, k + 1).drop_last() =~= s.subrange(0, k as int));
            assert(s.subrange(0, k + 1).last() == b);
        }
        if b == 10 {
            out.push(46u8);
            out.push(46u8);
            proof {
                assert(out@ =~= head + breaks_as_dots(s.subrange(0, k + 1)));
            }
        } else {
            out.push(b);
            proof {
                assert(out@ =~= head + breaks_as_dots(s.subrange(0, k + 1)));
            }
        }
        k += 1;
    }
    push_dots(&mut out, width - 1);
    proof {
        assert(s.subrange(0, s.len() as int) =~= s);
        assert(first_break(s, i as int));
        assert(out@ =~= dots((width + 1) as nat) + breaks_as_dots(s) + dots((width - 1) as nat));
    }
    Some((out, width))
}

/// A part number starts at `i`: a digit after a non-digit. A number at the very
/// start of the text is not seen, as the text starts with dots.
pub open spec fn part_starts(s: Seq<u8>, i: int) -> bool {
    0 < i < s.len() && is_digit(s[i]) && !is_digit(s[i - 1])
}

/// The numbers of the schematic, in order of their first digit.
pub fn part_numbers<'a>(hay: &'a [u8], width: usize) -> (r: Vec<PartNum<'a>>)
    ensures
        forall|k: int|
            0 <= k < r@.len() ==> (#[trigger] r@[k]).hay@ == hay@ && r@[k].width == width
                && part_starts(hay@, r@[k].idx as int),
        forall|k: int, q: int| 0 <= k < q < r@.len() ==> #[trigger] r@[k].idx < #[trigger] r@[q].idx,
        forall|i: int|
            #[trigger] part_starts(hay@, i) ==> exists|k: int| 0 <= k < r@.len() && r@[k].idx == i,
{
    let mut out: Vec<PartNum<'a>> = Vec::new();
    let mut i: usize = 1;
    while i < hay.len()
        invariant
            1 <= i,
            i <= hay@.len() || hay@.len() == 0,
            forall|k: int|
                0 <= k < out@.len() ==> (#[trigger] out@[k]).hay@ == hay@ && out@[k].width == width
                    && part_starts(hay@, out@[k].idx as int) && out@[k].idx < i,
            forall|k: int, q: int|
                0 <= k < q < out@.len() ==> #[trigger] out@[k].idx < #[trigger] out@[q].idx,
            forall|j: int|
                #[trigger] part_starts(hay@, j) && j < i ==> exists|k: int|
                    0 <= k < out@.len() && out@[k].idx == j,
        decreases hay@.len() - i,
    {
        let b = hay[i];
        let a = hay[i - 1];
        if 48 <= b && b <= 57 && !(48 <= a && a <= 57) {
            let ghost before = out@;
            let p = PartNum::new(hay, i, width);
            out.push(p);
            proof {
                assert forall|k: int| 0 <= k < out@.len() implies (#[trigger] out@[k]).hay@ == hay@
                    && out@[k].width == width && part_starts(hay@, out@[k].idx as int) && out@[k].idx
                    < i + 1 by {
                    if k < before.len() {
                        assert(out@[k] == before[k]);
                    }
                }
                assert forall|k: int, q: int|
                    0 <= k < q < out@.len() implies #[trigger] out@[k].idx < #[trigger] out@[q].idx by {
                    assert(out@[k] == before[k]);
                    if q < before.len() {
                        assert(out@[q] == before[q]);
                    }
                }
                assert forall|j: int| #[trigger] part_starts(hay@, j) && j < i + 1 implies exists|k: int|
                    0 <= k < out@.len() && out@[k].idx == j by {
                    if j < i {
                        let k = choose|k: int| 0 <= k < before.len() && before[k].idx == j;
                        assert(out@[k] == before[k]);
                    } else {
                        assert(out@[before.len() as int].idx == j);
                    }
                }
            }
        } else {
            proof {
                assert forall|j: int| #[trigger] part_starts(hay@, j) && j < i + 1 implies exists|k: int|
                    0 <= k < out@.len() && out@[k].idx == j by {
                    if j == i {
                        assert(!part_starts(hay@, j));
                    }
                }
            }
        }
        i += 1;
    }
    out
}

/// A part's number where it is valid and readable, zero otherwise.
pub open spec fn valid_value(p: PartNum) -> int {
    if run_len(p.hay@, p.idx as int) > 0 && number_at(p.hay@, p.idx as int) <= i64::MAX && exists|
        i: int,
    |
        0 <= i < p.hay@.len() && symbol_char(p.hay@[i] as char) && #[trigger] touches(
            p.idx as int,
            digit_count(number_at(p.hay@, p.idx as int)) as int,
            p.width as int,
            i,
        ) {
        number_at(p.hay@, p.idx as int) as int
    } else {
        0
    }
}

pub open spec fn valid_total(parts: Seq<PartNum>, n: int) -> int
    decreases n,
{
    if n <= 0 {
        0
    } else {
        valid_total(parts, n - 1) + valid_value(parts[n - 1])
    }
}

proof fn lemma_valid_total_mono(parts: Seq<PartNum>, k: int, n: int)
    requires
        0 <= k <= n,
    ensures
        valid_total(parts, k) <= valid_total(parts, n),
    decreases n - k,
{
    if k < n {
        lemma_valid_total_mono(parts, k, n - 1);
    }
}

/// The sum of the numbers of the valid parts.
pub fn sum_valid_parts(parts: &Vec<PartNum>) -> (r: Result<i64, PartNumError>)
    ensures
        valid_total(parts@, parts@.len() as int) <= i64::MAX ==> r == Ok::<i64, PartNumError>(
            valid_total(parts@, parts@.len() as int) as i64,
        ),
        valid_total(parts@, parts@.len() as int) > i64::MAX ==> r == Err::<i64, PartNumError>(
            PartNumError::TooLarge,
        ),
{
    let mut res: i64 = 0;
    let mut k: usize = 0;
    while k < parts.len()
        invariant
            k <= parts@.len(),
            res == valid_total(parts@, k as int),
            res >= 0,
        decreases parts@.len() - k,
    {
        let p = &parts[k];
        let valid = p.is_valid();
        if let Ok(true) = valid {
            let n = match p.num() {
                Ok(n) => n,
                Err(e) => {
                    return Err(e);
                },
            };
            if res > i64::MAX - n {
                proof {
                    lemma_valid_total_mono(parts@, k + 1, parts@.len() as int);
                }
                return Err(PartNumError::TooLarge);
            }
            res = res + n;
        }
        k += 1;
    }
    Ok(res)
}

/// The parts among the first `n` that touch position `i`.
pub open spec fn touching(parts: Seq<PartNum>, n: int, i: int) -> Seq<PartNum>
    decreases n,
{
    if n <= 0 {
        seq![]
    } else {
        let p = parts[n - 1];
        if num_result(p.hay@, p.idx as int) is Ok && touches(
            p.idx as int,
            digit_count(number_at(p.hay@, p.idx as int)) as int,
            p.width as int,
            i,
        ) {
            touching(parts, n - 1, i).push(p)
        } else {
            touching(parts, n - 1, i)
        }
    }
}

pub open spec fn readable(p: PartNum) -> int {
    number_at(p.hay@, p.idx as int) as int
}

/// The gear ratio at position `i`: where exactly two parts touch it, the product
/// of their numbers; zero otherwise.
pub open spec fn ratio_at(parts: Seq<PartNum>, i: int) -> int {
    let t = touching(parts, parts.len() as int, i);
    if t.len() == 2 {
        readable(t[0]) * readable(t[1])
    } else {
        0
    }
}

/// The sum of the gear ratios at the stars among the first `n` positions.
pub open spec fn ratio_total(hay: Seq<u8>, parts: Seq<PartNum>, n: int) -> int
    decreases n,
{
    if n <= 0 {
        0
    } else if hay[n - 1] == 42 {
        ratio_total(hay, parts, n - 1) + ratio_at(parts, n - 1)
    } else {
        ratio_total(hay, parts, n - 1)
    }
}

proof fn lemma_touching_readable(parts: Seq<PartNum>, n: int, i: int)
    requires
        0 <= n <= parts.len(),
    ensures
        forall|k: int|
            0 <= k < touching(parts, n, i).len() ==> 0 <= #[trigger] readable(touching(parts, n, i)[k])
                <= i64::MAX,
    decreases n,
{
    if n > 0 {
        lemma_touching_readable(parts, n - 1, i);
        let prev = touching(parts, n - 1, i);
        let p = parts[n - 1];
        if num_result(p.hay@, p.idx as int) is Ok && touches(
            p.idx as int,
            digit_count(number_at(p.hay@, p.idx as int)) as int,
            p.width as int,
            i,
        ) {
            assert forall|k: int| 0 <= k < prev.len() + 1 implies 0 <= #[trigger] readable(
                prev.push(p)[k],
            ) <= i64::MAX by {
                if k < prev.len() {
                    assert(prev.push(p)[k] == prev[k]);
                }
            }
        }
    }
}

proof fn lemma_ratio_mono(hay: Seq<u8>, parts: Seq<PartNum>, k: int, n: int)
    requires
        0 <= k <= n <= hay.len(),
    ensures
        ratio_total(hay, parts, k) <= ratio_total(hay, parts, n),
    decreases n - k,
{
    if k < n {
        lemma_ratio_mono(hay, parts, k, n - 1);
        lemma_touching_readable(parts, parts.len() as int, n - 1);
        let t = touching(parts, parts.len() as int, n - 1);
        if t.len() == 2 {
            assert(0 <= readable(t[0]));
            assert(0 <= readable(t[1]));
            assert(0 <= readable(t[0]) * readable(t[1])) by (nonlinear_arith)
                requires
                    0 <= readable(t[0]),
                    0 <= readable(t[1]),
            ;
        }
    }
}

/// The parts that touch position `i`, with their numbers.
fn parts_touching(parts: &Vec<PartNum>, i: usize) -> (r: Vec<i64>)
    ensures
        r@.len() == touching(parts@, parts@.len() as int, i as int).len(),
        forall|k: int|
            0 <= k < r@.len() ==> r@[k] == readable(
                #[trigger] touching(parts@, parts@.len() as int, i as int)[k],
            ),
{
    let mut out: Vec<i64> = Vec::new();
    let mut k: usize = 0;
    while k < parts.len()
        invariant
            k <= parts@.len(),
            out@.len() == touching(parts@, k as int, i as int).len(),
            forall|q: int|
                0 <= q < out@.len() ==> out@[q] == readable(
                    #[trigger] touching(parts@, k as int, i as int)[q],
                ),
        decreases parts@.len() - k,
    {
        let p = &parts[k];
        if let Ok(true) = p.is_adjacent(i) {
            let n = match p.num() {
                Ok(n) => n,
                Err(_) => 0,
            };
            let ghost prev = touching(parts@, k as int, i as int);
            out.push(n);
            proof {
                assert forall|q: int| 0 <= q < out@.len() implies out@[q] == readable(
                    #[trigger] touching(parts@, k + 1, i as int)[q],
                ) by {
                    if q < prev.len() {
                        assert(touching(parts@, k + 1, i as int)[q] == prev[q]);
                    }
                }
            }
        }
        k += 1;
    }
    out
}

/// The sum of the gear ratios: at each star, the product of the two part numbers
/// that touch it, where exactly two do.
pub fn gear_ratio_sum(hay: &[u8], parts: &Vec<PartNum>) -> (r: Result<i64, PartNumError>)
    ensures
        ratio_total(hay@, parts@, hay@.len() as int) <= i64::MAX ==> r == Ok::<i64, PartNumError>(
            ratio_total(hay@, parts@, hay@.len() as int) as i64,
        ),
        ratio_total(hay@, parts@, hay@.len() as int) > i64::MAX ==> r == Err::<i64, PartNumError>(
            PartNumError::TooLarge,
        ),
{
    let mut res: i64 = 0;
    let mut i: usize = 0;
    while i < hay.len()
        invariant
            i <= hay@.len(),
            res == ratio_total(hay@, parts@, i as int),
            res >= 0,
        decreases hay@.len() - i,
    {
        if hay[i] == 42 {
            let t = parts_touching(parts, i);
            let mut ratio: i64 = 0;
            if t.len() == 2 {
                proof {
                    lemma_touching_readable(parts@, parts@.len() as int, i as int);
                }
                let a = t[0];
                let b = t[1];
                if b != 0 && a > i64::MAX / b {
                    proof {
                        assert(a * b > i64::MAX) by (nonlinear_arith)
                            requires
                                a > i64::MAX / b,
                                b > 0,
                        ;
                        lemma_ratio_mono(hay@, parts@, i + 1, hay@.len() as int);
                    }
                    return Err(PartNumError::TooLarge);
                }
                proof {
                    assert(0 <= a * b <= i64::MAX) by (nonlinear_arith)
                        requires
                            0 <= a,
                            0 <= b,
                            b == 0 || a <= i64::MAX / b,
                    ;
                }
                ratio = a * b;
            }
            if res > i64::MAX - ratio {
                proof {
                    lemma_ratio_mono(hay@, parts@, i + 1, hay@.len() as int);
                }
                return Err(PartNumError::TooLarge);
            }
            res = res + ratio;
        }
        i += 1;
    }
    Ok(res)
}

} // verus!
