//! The portable grayscale bitmap grammar, stated as specification
//! functions over the raw byte sequence.
//!
//! A bitmap starts with a magic token (`P2` for an all-ASCII sample body,
//! `P5` for a raw-binary one), followed by three numeric header tokens:
//! width, height and the maximum sample value.  Header tokens are
//! separated by whitespace and may span lines; any header line whose
//! first character is `#` is a comment and is skipped.  An ASCII body
//! holds `width * height` further numeric tokens; a binary body is every
//! byte after the line that holds the maximum value, one byte per sample.

use vstd::prelude::*;

verus! {

/// Scanner position within a line, which decides whether a `#` opens a
/// comment and whether bytes are being discarded as comment text.
#[derive(Clone, Copy, PartialEq, Eq, Structural)]
pub enum ScanState {
    /// At the start of a line: a `#` here opens a comment.
    LineStart,
    /// Past the first character of a line: a `#` here is token text.
    MidLine,
    /// Inside a comment: everything up to the next line break is skipped.
    Comment,
}

pub open spec fn is_ws(b: u8) -> bool {
    b == 32 || b == 9 || b == 10 || b == 13
}

pub open spec fn is_digit(b: u8) -> bool {
    48 <= b && b <= 57
}

/// Index of the first byte at or after `i` that is neither whitespace
/// nor part of a comment line (or the end of the buffer).
pub open spec fn skip_blanks(s: Seq<u8>, i: int, st: ScanState) -> int
    decreases s.len() - i,
    when 0 <= i <= s.len()
{
    if i >= s.len() {
        s.len() as int
    } else if st == ScanState::Comment {
        if s[i] == 10 {
            skip_blanks(s, i + 1, ScanState::LineStart)
        } else {
            skip_blanks(s, i + 1, ScanState::Comment)
        }
    } else if s[i] == 10 {
        skip_blanks(s, i + 1, ScanState::LineStart)
    } else if is_ws(s[i]) {
        skip_blanks(s, i + 1, ScanState::MidLine)
    } else if st == ScanState::LineStart && s[i] == 35 {
        skip_blanks(s, i + 1, ScanState::Comment)
    } else {
        i
    }
}

/// Index of the first whitespace byte at or after `i` (or the end of the
/// buffer): the end of the token that starts at `i`.
pub open spec fn tok_end(s: Seq<u8>, i: int) -> int
    decreases s.len() - i,
    when 0 <= i <= s.len()
{
    if i >= s.len() {
        s.len() as int
    } else if is_ws(s[i]) {
        i
    } else {
        tok_end(s, i + 1)
    }
}

/// Index of the first line break at or after `i` (or the end of the
/// buffer).
pub open spec fn line_break(s: Seq<u8>, i: int) -> int
    decreases s.len() - i,
    when 0 <= i <= s.len()
{
    if i >= s.len() {
        s.len() as int
    } else if s[i] == 10 {
        i
    } else {
        line_break(s, i + 1)
    }
}

pub open spec fn all_digits(s: Seq<u8>) -> bool {
    forall|k: int| 0 <= k < s.len() ==> is_digit(#[trigger] s[k])
}

/// Value of a sequence of ASCII decimal digits.
pub open spec fn digits_val(s: Seq<u8>) -> int
    decreases s.len(),
{
    if s.len() == 0 {
        0
    } else {
        digits_val(s.drop_last()) * 10 + (s.last() - 48)
    }
}

/// Reads one numeric token starting at or after `i` (`i` itself is
/// mid-line).  Yields the token's value and its end index, or nothing if
/// the next token is absent, non-numeric, or too large for a `u32`.
pub open spec fn read_nat(s: Seq<u8>, i: int) -> Option<(int, int)>
    recommends 0 <= i <= s.len()
{
    let a = skip_blanks(s, i, ScanState::MidLine);
    let b = tok_end(s, a);
    if a < b && all_digits(s.subrange(a, b)) && digits_val(s.subrange(a, b)) <= u32::MAX {
        Some((digits_val(s.subrange(a, b)), b))
    } else {
        None
    }
}

/// A sample value, clamped to the declared maximum.
pub open spec fn clamped(v: int, m: int) -> int {
    if v <= m {
        v
    } else {
        m
    }
}

/// Reads `n` numeric sample tokens starting at or after `i`, each
/// clamped to the maximum `m`; nothing if fewer than `n` are available.
pub open spec fn read_samples(s: Seq<u8>, i: int, n: int, m: int) -> Option<Seq<int>>
    decreases n,
{
    if n <= 0 {
        Some(Seq::empty())
    } else {
        match read_nat(s, i) {
            None => None,
            Some((v, j)) => match read_samples(s, j, n - 1, m) {
                None => None,
                Some(rest) => Some(seq![clamped(v, m)] + rest),
            },
        }
    }
}

/// The `n` raw-binary samples that start at index `b0`, each byte one
/// sample, clamped to the maximum `m`.
pub open spec fn bin_samples(s: Seq<u8>, b0: int, n: int, m: int) -> Seq<int> {
    Seq::new(n as nat, |k: int| clamped(s[b0 + k] as int, m))
}

/// A decoded bitmap: dimensions, declared maximum sample value, and the
/// samples in row-major order (index `k` is column `k % width` of row
/// `k / width`).  The normalized luminance of sample `k` is the rational
/// `samples[k] / max_value`.
pub struct PgmModel {
    pub width: int,
    pub height: int,
    pub max_value: int,
    pub samples: Seq<int>,
}

impl PgmModel {
    /// Well-formed: positive dimensions and maximum, machine-sized
    /// fields, exactly one sample per pixel, every sample in `[0, max]`
    /// (so every normalized luminance lies in `[0, 1]`).
    pub open spec fn wf(self) -> bool {
        &&& 0 < self.width <= u32::MAX
        &&& 0 < self.height <= u32::MAX
        &&& 0 < self.max_value <= u32::MAX
        &&& self.samples.len() == self.width * self.height
        &&& forall|k: int|
            0 <= k < self.samples.len() ==> 0 <= #[trigger] self.samples[k] <= self.max_value
    }
}

/// The ways a byte buffer can fail to be a bitmap.
#[derive(Clone, Copy, Debug, PartialEq, Eq, Structural)]
pub enum FormatError {
    /// The first token is not one of the two accepted magic tokens.
    BadMagic,
    /// A header token after the magic is missing or not numeric.
    MalformedHeader,
    /// The declared width or height is zero.
    ZeroDimension,
    /// The declared maximum sample value is zero.
    NonPositiveMaxValue,
    /// Fewer than `width * height` samples are available.
    InsufficientSamples,
}

/// What a byte buffer denotes: a decoded bitmap, or the first error the
/// header or body exhibits.  This is the meaning the parser implements.
pub open spec fn spec_parse(s: Seq<u8>) -> Result<PgmModel, FormatError> {
    let a = skip_blanks(s, 0, ScanState::LineStart);
    let b = tok_end(s, a);
    let magic = s.subrange(a, b);
    if magic == seq![80u8, 50u8] || magic == seq![80u8, 53u8] {
        match read_nat(s, b) {
            None => Err(FormatError::MalformedHeader),
            Some((w, i1)) => match read_nat(s, i1) {
                None => Err(FormatError::MalformedHeader),
                Some((h, i2)) => match read_nat(s, i2) {
                    None => Err(FormatError::MalformedHeader),
                    Some((m, i3)) => {
                        if w == 0 || h == 0 {
                            Err(FormatError::ZeroDimension)
                        } else if m == 0 {
                            Err(FormatError::NonPositiveMaxValue)
                        } else if magic == seq![80u8, 53u8] {
                            let b0 = line_break(s, i3) + 1;
                            if s.len() - b0 >= w * h {
                                Ok(PgmModel {
                                    width: w,
                                    height: h,
                                    max_value: m,
                                    samples: bin_samples(s, b0, w * h, m),
                                })
                            } else {
                                Err(FormatError::InsufficientSamples)
                            }
                        } else {
                            match read_samples(s, i3, w * h, m) {
                                None => Err(FormatError::InsufficientSamples),
                                Some(v) => Ok(PgmModel {
                                    width: w,
                                    height: h,
                                    max_value: m,
                                    samples: v,
                                }),
                            }
                        }
                    },
                },
            },
        }
    } else {
        Err(FormatError::BadMagic)
    }
}

/// ASCII decimal digits of `n`, most significant first.
pub open spec fn dec_digits(n: int) -> Seq<u8>
    decreases n,
    when 0 <= n
{
    if n < 10 {
        seq![(48 + n) as u8]
    } else {
        dec_digits(n / 10) + seq![(48 + n % 10) as u8]
    }
}

/// Each number as its decimal digits, one number per line.
pub open spec fn enc_nums(ns: Seq<int>) -> Seq<u8>
    decreases ns.len(),
{
    if ns.len() == 0 {
        Seq::empty()
    } else {
        dec_digits(ns[0]) + seq![10u8] + enc_nums(ns.drop_first())
    }
}

/// The ASCII-body encoding of a bitmap: the `P2` magic line, then
/// width, height, maximum and every sample, each on a line of its own.
pub open spec fn spec_encode(m: PgmModel) -> Seq<u8> {
    seq![80u8, 50u8, 10u8] + enc_nums(seq![m.width, m.height, m.max_value] + m.samples)
}

/// Index just past the third line break, scanning from `i` with `seen`
/// line breaks already passed (or the end of the buffer).  In a
/// raw-binary bitmap without comment lines this is where the sample
/// bytes start.
pub open spec fn cut_after_header(s: Seq<u8>, i: int, seen: int) -> int
    decreases s.len() - i,
    when 0 <= i <= s.len()
{
    if i >= s.len() {
        s.len() as int
    } else if s[i] == 10 {
        if seen >= 2 {
            i + 1
        } else {
            cut_after_header(s, i + 1, seen + 1)
        }
    } else {
        cut_after_header(s, i + 1, seen)
    }
}

pub open spec fn byte_vals(s: Seq<u8>) -> Seq<int> {
    s.map_values(|b: u8| b as int)
}

/// The ASCII expansion of a raw-binary bitmap: the three header lines
/// kept as they are, then every following byte written as its decimal
/// value on a line of its own.
pub open spec fn spec_expand(s: Seq<u8>) -> Seq<u8> {
    let c = cut_after_header(s, 0, 0);
    s.subrange(0, c) + enc_nums(byte_vals(s.subrange(c, s.len() as int)))
}

/// Encoding a single number is its digits and a line break.
pub proof fn lemma_enc_one(x: int)
    ensures
        enc_nums(seq![x]) == dec_digits(x) + seq![10u8],
{
    reveal_with_fuel(enc_nums, 2);
    assert(seq![x].drop_first() =~= Seq::<int>::empty());
    assert(enc_nums(Seq::<int>::empty()) == Seq::<u8>::empty());
    assert(seq![x][0] == x);
    assert(enc_nums(seq![x]) == dec_digits(x) + seq![10u8] + enc_nums(Seq::<int>::empty()));
    assert(enc_nums(seq![x]) =~= dec_digits(x) + seq![10u8]);
}

/// A digit string's value is non-negative.
pub proof fn lemma_digits_val_nonneg(s: Seq<u8>)
    requires
        all_digits(s),
    ensures
        digits_val(s) >= 0,
    decreases s.len(),
{
    if s.len() > 0 {
        assert forall|k: int| 0 <= k < s.drop_last().len() implies is_digit(
            #[trigger] s.drop_last()[k],
        ) by {
            assert(s.drop_last()[k] == s[k]);
        }
        lemma_digits_val_nonneg(s.drop_last());
    }
}

/// Extending a digit string never shrinks its value: the value of
/// `s[a..b]` is at least the value of its prefix `s[a..k]`.
pub proof fn lemma_digits_val_grows(s: Seq<u8>, a: int, k: int, b: int)
    requires
        0 <= a <= k <= b <= s.len(),
        all_digits(s.subrange(a, b)),
    ensures
        digits_val(s.subrange(a, b)) >= digits_val(s.subrange(a, k)),
    decreases b - k,
{
    if k < b {
        let t = s.subrange(a, k + 1);
        assert(t.drop_last() =~= s.subrange(a, k));
        assert(t.last() == s[k]);
        assert(is_digit(s[k])) by {
            assert(s.subrange(a, b)[k - a] == s[k]);
        }
        assert forall|j: int| 0 <= j < k - a implies is_digit(
            #[trigger] s.subrange(a, k)[j],
        ) by {
            assert(s.subrange(a, k)[j] == s[a + j]);
            assert(s.subrange(a, b)[j] == s[a + j]);
        }
        lemma_digits_val_nonneg(s.subrange(a, k));
        assert(digits_val(t) == digits_val(s.subrange(a, k)) * 10 + (s[k] - 48));
        assert(digits_val(t) >= digits_val(s.subrange(a, k))) by (nonlinear_arith)
            requires
                digits_val(t) == digits_val(s.subrange(a, k)) * 10 + (s[k] - 48),
                digits_val(s.subrange(a, k)) >= 0,
                s[k] >= 48,
        ;
        lemma_digits_val_grows(s, a, k + 1, b);
    }
}

/// Encoding a concatenation of numbers is the concatenation of the
/// encodings.
pub proof fn lemma_enc_nums_concat(x: Seq<int>, y: Seq<int>)
    ensures
        enc_nums(x + y) == enc_nums(x) + enc_nums(y),
    decreases x.len(),
{
    if x.len() == 0 {
        assert(x + y =~= y);
        assert(enc_nums(x) + enc_nums(y) =~= enc_nums(y));
    } else {
        assert((x + y).drop_first() =~= x.drop_first() + y);
        assert((x + y)[0] == x[0]);
        lemma_enc_nums_concat(x.drop_first(), y);
        assert(enc_nums(x + y) =~= enc_nums(x) + enc_nums(y));
    }
}

} // verus!
