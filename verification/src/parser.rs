//! The bitmap parser: a state machine over the raw byte buffer that
//! implements the grammar of `pgm` exactly, plus the matching encoder.

use vstd::prelude::*;
use crate::image::Image;
use crate::pgm::{
    all_digits, bin_samples, byte_vals, clamped, cut_after_header, dec_digits, digits_val,
    enc_nums, is_digit, lemma_digits_val_grows, lemma_enc_nums_concat, lemma_enc_one, line_break,
    read_nat, read_samples, skip_blanks, spec_encode, spec_expand, spec_parse, tok_end,
    FormatError, PgmModel, ScanState,
};

verus! {

/// Advances past whitespace and comment lines, starting at `from` in
/// scanner state `st0`.
fn scan_blanks(s: &Vec<u8>, from: usize, st0: ScanState) -> (r: usize)
    requires
        from <= s.len(),
    ensures
        from <= r <= s.len(),
        r as int == skip_blanks(s@, from as int, st0),
{
    let mut i: usize = from;
    let mut st: ScanState = st0;
    loop
        invariant
            from <= i <= s.len(),
            skip_blanks(s@, from as int, st0) == skip_blanks(s@, i as int, st),
        decreases s.len() - i,
    {
        if i == s.len() {
            return i;
        }
        let b = s[i];
        if st == ScanState::Comment {
            if b == 10 {
                st = ScanState::LineStart;
            }
            i = i + 1;
        } else if b == 10 {
            st = ScanState::LineStart;
            i = i + 1;
        } else if b == 32 || b == 9 || b == 13 {
            st = ScanState::MidLine;
            i = i + 1;
        } else if st == ScanState::LineStart && b == 35 {
            st = ScanState::Comment;
            i = i + 1;
        } else {
            return i;
        }
    }
}

/// Finds the end of the token that starts at `from`.
fn scan_token_end(s: &Vec<u8>, from: usize) -> (r: usize)
    requires
        from <= s.len(),
    ensures
        from <= r <= s.len(),
        r as int == tok_end(s@, from as int),
{
    let mut i: usize = from;
    loop
        invariant
            from <= i <= s.len(),
            tok_end(s@, from as int) == tok_end(s@, i as int),
        decreases s.len() - i,
    {
        if i == s.len() {
            return i;
        }
        let b = s[i];
        if b == 32 || b == 9 || b == 10 || b == 13 {
            return i;
        }
        i = i + 1;
    }
}

/// Finds the first line break at or after `from`.
fn scan_line_break(s: &Vec<u8>, from: usize) -> (r: usize)
    requires
        from <= s.len(),
    ensures
        from <= r <= s.len(),
        r as int == line_break(s@, from as int),
{
    let mut i: usize = from;
    loop
        invariant
            from <= i <= s.len(),
            line_break(s@, from as int) == line_break(s@, i as int),
        decreases s.len() - i,
    {
        if i == s.len() {
            return i;
        }
        if s[i] == 10 {
            return i;
        }
        i = i + 1;
    }
}

/// Reads the next numeric token at or after `from`: its value and its
/// end index, or nothing if the token is absent, non-numeric, or too
/// large for a `u32`.
fn next_number(s: &Vec<u8>, from: usize) -> (r: Option<(u32, usize)>)
    requires
        from <= s.len(),
    ensures
        match r {
            Some(p) => {
                &&& read_nat(s@, from as int) == Some((p.0 as int, p.1 as int))
                &&& from <= p.1 <= s.len()
            },
            None => read_nat(s@, from as int) is None,
        },
{
    let a = scan_blanks(s, from, ScanState::MidLine);
    let b = scan_token_end(s, a);
    if a == b {
        return None;
    }
    let ghost tok = s@.subrange(a as int, b as int);
    let mut v: u64 = 0;
    let mut k: usize = a;
    while k < b
        invariant
            a <= k <= b <= s.len(),
            a < b,
            b as int == tok_end(s@, a as int),
            a as int == skip_blanks(s@, from as int, ScanState::MidLine),
            tok == s@.subrange(a as int, b as int),
            all_digits(s@.subrange(a as int, k as int)),
            v == digits_val(s@.subrange(a as int, k as int)),
            v <= u32::MAX,
        decreases b - k,
    {
        let d = s[k];
        let ghost aa = a as int;
        let ghost kk = k as int;
        let ghost bb = b as int;
        if d < 48 || d > 57 {
            proof {
                assert(s@.subrange(aa, bb)[kk - aa] == s@[kk]);
                assert(!all_digits(s@.subrange(aa, bb)));
            }
            return None;
        }
        let nv: u64 = v * 10 + ((d - 48) as u64);
        proof {
            assert(s@.subrange(aa, kk + 1).drop_last() =~= s@.subrange(aa, kk));
            assert(s@.subrange(aa, kk + 1).last() == s@[kk]);
            assert(digits_val(s@.subrange(aa, kk + 1)) == nv);
            assert forall|j: int| 0 <= j < kk + 1 - aa implies is_digit(
                #[trigger] s@.subrange(aa, kk + 1)[j],
            ) by {
                assert(s@.subrange(aa, kk + 1)[j] == s@[aa + j]);
                if j < kk - aa {
                    assert(s@.subrange(aa, kk)[j] == s@[aa + j]);
                } else {
                    assert(s@[aa + j] == d);
                }
            }
        }
        if nv > 0xffff_ffff {
            proof {
                if all_digits(s@.subrange(aa, bb)) {
                    lemma_digits_val_grows(s@, aa, kk + 1, bb);
                }
            }
            return None;
        }
        v = nv;
        k = k + 1;
    }
    proof {
        assert(s@.subrange(a as int, b as int) == s@.subrange(a as int, k as int));
    }
    Some((v as u32, b))
}

/// Decodes a bitmap buffer into an image, or reports the first way in
/// which the buffer fails to be a bitmap.  The result is exactly what
/// the grammar in `pgm` assigns to the buffer.
#[verifier::loop_isolation(false)]
pub fn parse(buf: &Vec<u8>) -> (r: Result<Image, FormatError>)
    ensures
        match r {
            Ok(img) => img.wf() && spec_parse(buf@) == Ok::<PgmModel, FormatError>(img.model()),
            Err(e) => spec_parse(buf@) == Err::<PgmModel, FormatError>(e),
        },
{
    let a = scan_blanks(buf, 0, ScanState::LineStart);
    let b = scan_token_end(buf, a);
    let ghost magic = buf@.subrange(a as int, b as int);
    let mut is_p2 = false;
    let mut is_p5 = false;
    if b - a == 2 {
        if buf[a] == 80 {
            if buf[a + 1] == 50 {
                is_p2 = true;
            }
            if buf[a + 1] == 53 {
                is_p5 = true;
            }
        }
    }
    proof {
        let aa = a as int;
        let bb = b as int;
        assert(magic.len() == bb - aa);
        assert(seq![80u8, 50u8][1] == 50);
        assert(seq![80u8, 53u8][1] == 53);
        assert(seq![80u8, 50u8] != seq![80u8, 53u8]);
        if bb - aa == 2 {
            assert(magic[0] == buf@[aa]);
            assert(magic[1] == buf@[aa + 1]);
            if buf@[aa] == 80 && buf@[aa + 1] == 50 {
                assert(magic =~= seq![80u8, 50u8]);
            }
            if buf@[aa] == 80 && buf@[aa + 1] == 53 {
                assert(magic =~= seq![80u8, 53u8]);
            }
        }
        assert(is_p2 <==> magic == seq![80u8, 50u8]);
        assert(is_p5 <==> magic == seq![80u8, 53u8]);
    }
    if !is_p2 && !is_p5 {
        return Err(FormatError::BadMagic);
    }
    let (w, i1): (u32, usize) = match next_number(buf, b) {
        None => {
            return Err(FormatError::MalformedHeader);
        },
        Some(p) => p,
    };
    let (h, i2): (u32, usize) = match next_number(buf, i1) {
        None => {
            return Err(FormatError::MalformedHeader);
        },
        Some(p) => p,
    };
    let (m, i3): (u32, usize) = match next_number(buf, i2) {
        None => {
            return Err(FormatError::MalformedHeader);
        },
        Some(p) => p,
    };
    if w == 0 || h == 0 {
        return Err(FormatError::ZeroDimension);
    }
    if m == 0 {
        return Err(FormatError::NonPositiveMaxValue);
    }
    proof {
        assert(w as int * h as int <= 0xffff_ffff * 0xffff_ffff) by (nonlinear_arith)
            requires 0 <= w as int <= 0xffff_ffff, 0 <= h as int <= 0xffff_ffff;
    }
    let need: u64 = (w as u64) * (h as u64);
    proof {
        assert(need as int == w as int * h as int);
        assert(need >= 1) by (nonlinear_arith)
            requires need as int == w as int * h as int, w >= 1, h >= 1;
    }
    if is_p5 {
        let lb = scan_line_break(buf, i3);
        if lb == buf.len() {
            return Err(FormatError::InsufficientSamples);
        }
        let b0 = lb + 1;
        let avail = buf.len() - b0;
        if (avail as u64) < need {
            return Err(FormatError::InsufficientSamples);
        }
        let n: usize = need as usize;
        let mut samples: Vec<u32> = Vec::new();
        let mut k: usize = 0;
        while k < n
            invariant
                0 <= k <= n,
                n == need,
                need as int == w as int * h as int,
                b0 + n <= buf.len(),
                m >= 1,
                samples@.len() == k as int,
                samples@.map_values(|v: u32| v as int) == bin_samples(
                    buf@,
                    b0 as int,
                    k as int,
                    m as int,
                ),
                forall|j: int| 0 <= j < k as int ==> #[trigger] samples@[j] <= m,
            decreases n - k,
        {
            let byte = buf[b0 + k];
            let sv: u32 = if (byte as u32) <= m {
                byte as u32
            } else {
                m
            };
            proof {
                let nm = (samples@.push(sv)).map_values(|v: u32| v as int);
                let bs = bin_samples(buf@, b0 as int, k as int + 1, m as int);
                assert forall|j: int| 0 <= j < k as int + 1 implies nm[j] == bs[j] by {
                    if j < k as int {
                        assert(nm[j] == samples@.map_values(|v: u32| v as int)[j]);
                        assert(samples@.map_values(|v: u32| v as int)[j] == bin_samples(
                            buf@,
                            b0 as int,
                            k as int,
                            m as int,
                        )[j]);
                    } else {
                        assert(nm[j] == sv as int);
                    }
                }
                assert(nm =~= bs);
            }
            samples.push(sv);
            k = k + 1;
        }
        let img = Image { width: w, height: h, max_value: m, samples };
        proof {
            assert(img.model().samples == bin_samples(buf@, b0 as int, need as int, m as int));
            assert forall|j: int| 0 <= j < img.model().samples.len() implies 0 <= #[trigger] img.model().samples[j]
                <= img.model().max_value by {
                assert(img.model().samples[j] == img.samples@[j] as int);
            }
            assert(img.wf());
            assert(spec_parse(buf@) == Ok::<PgmModel, FormatError>(img.model()));
        }
        return Ok(img);
    }
    let mut samples: Vec<u32> = Vec::new();
    let mut cur: usize = i3;
    let mut cnt: u64 = 0;
    while cnt < need
        invariant
            cur <= buf.len(),
            0 <= cnt <= need,
            need as int == w as int * h as int,
            m >= 1,
            samples@.len() == cnt as int,
            forall|j: int| 0 <= j < cnt as int ==> #[trigger] samples@[j] <= m,
            read_samples(buf@, i3 as int, need as int, m as int) == (match read_samples(
                buf@,
                cur as int,
                need as int - cnt as int,
                m as int,
            ) {
                None => None::<Seq<int>>,
                Some(rest) => Some(samples@.map_values(|v: u32| v as int) + rest),
            }),
        decreases need - cnt,
    {
        match next_number(buf, cur) {
            None => {
                proof {
                    assert(read_samples(buf@, cur as int, need as int - cnt as int, m as int)
                        is None);
                    assert(read_samples(buf@, i3 as int, need as int, m as int) is None);
                    assert(spec_parse(buf@) == Err::<PgmModel, FormatError>(
                        FormatError::InsufficientSamples,
                    ));
                }
                return Err(FormatError::InsufficientSamples);
            },
            Some(p) => {
                let v = p.0;
                let j = p.1;
                let sv: u32 = if v <= m {
                    v
                } else {
                    m
                };
                proof {
                    let rem = need as int - cnt as int;
                    let tail = read_samples(buf@, j as int, rem - 1, m as int);
                    assert(read_samples(buf@, cur as int, rem, m as int) == (match tail {
                        None => None::<Seq<int>>,
                        Some(rest) => Some(seq![clamped(v as int, m as int)] + rest),
                    }));
                    assert((samples@.push(sv)).map_values(|x: u32| x as int) =~= samples@
                        .map_values(|x: u32| x as int) + seq![sv as int]);
                    assert(sv as int == clamped(v as int, m as int));
                    if tail is Some {
                        let rest = tail->Some_0;
                        assert(samples@.map_values(|x: u32| x as int) + seq![sv as int] + rest
                            =~= samples@.map_values(|x: u32| x as int) + (seq![sv as int] + rest));
                    }
                }
                samples.push(sv);
                cur = j;
                cnt = cnt + 1;
            },
        }
    }
    proof {
        assert(read_samples(buf@, cur as int, 0, m as int) == Some(Seq::<int>::empty()));
        assert(samples@.map_values(|x: u32| x as int) + Seq::<int>::empty() =~= samples@
            .map_values(|x: u32| x as int));
    }
    let img = Image { width: w, height: h, max_value: m, samples };
    proof {
        assert forall|j: int| 0 <= j < img.model().samples.len() implies 0 <= #[trigger] img.model().samples[j]
            <= img.model().max_value by {
            assert(img.model().samples[j] == img.samples@[j] as int);
        }
        assert(img.wf());
        assert(spec_parse(buf@) == Ok::<PgmModel, FormatError>(img.model()));
    }
    Ok(img)
}

/// Appends the decimal digits of `n`.
fn push_dec(v: &mut Vec<u8>, n: u32)
    ensures
        final(v)@ == old(v)@ + dec_digits(n as int),
    decreases n,
{
    if n < 10 {
        v.push(48 + (n as u8));
        proof {
            assert(v@ =~= old(v)@ + dec_digits(n as int));
        }
    } else {
        push_dec(v, n / 10);
        v.push(48 + ((n % 10) as u8));
        proof {
            assert(n as int / 10 == (n / 10) as int);
            assert(dec_digits(n as int) == dec_digits(n as int / 10) + seq![
                (48 + (n as int) % 10) as u8,
            ]);
            assert(v@ =~= old(v)@ + dec_digits(n as int));
        }
    }
}

/// Re-encodes an image as an ASCII-body bitmap: the `P2` magic line,
/// then width, height, maximum value and every sample, one number per
/// line.
#[verifier::loop_isolation(false)]
pub fn encode(img: &Image) -> (r: Vec<u8>)
    requires
        img.wf(),
    ensures
        r@ == spec_encode(img.model()),
{
    let ghost pre = seq![80u8, 50u8, 10u8];
    let ghost hdr = seq![img.width as int, img.height as int, img.max_value as int];
    let ghost smp = img.model().samples;
    let mut out: Vec<u8> = Vec::new();
    out.push(80);
    out.push(50);
    out.push(10);
    proof {
        assert(out@ =~= pre);
    }
    push_dec(&mut out, img.width);
    out.push(10);
    push_dec(&mut out, img.height);
    out.push(10);
    push_dec(&mut out, img.max_value);
    out.push(10);
    proof {
        lemma_enc_one(hdr[0]);
        lemma_enc_one(hdr[1]);
        lemma_enc_one(hdr[2]);
        lemma_enc_nums_concat(seq![hdr[0]], seq![hdr[1]]);
        lemma_enc_nums_concat(seq![hdr[0]] + seq![hdr[1]], seq![hdr[2]]);
        assert(hdr =~= (seq![hdr[0]] + seq![hdr[1]]) + seq![hdr[2]]);
        assert(hdr + smp.subrange(0, 0) =~= hdr);
        assert(out@ =~= pre + enc_nums(hdr));
    }
    let n = img.samples.len();
    let mut k: usize = 0;
    while k < n
        invariant
            k <= n,
            n == img.samples.len(),
            out@ == pre + enc_nums(hdr + smp.subrange(0, k as int)),
        decreases n - k,
    {
        push_dec(&mut out, img.samples[k]);
        out.push(10);
        proof {
            assert(smp[k as int] == img.samples@[k as int] as int);
            assert(smp.subrange(0, k as int + 1) =~= smp.subrange(0, k as int) + seq![
                smp[k as int],
            ]);
            lemma_enc_nums_concat(hdr + smp.subrange(0, k as int), seq![smp[k as int]]);
            assert((hdr + smp.subrange(0, k as int)) + seq![smp[k as int]] =~= hdr + smp.subrange(
                0,
                k as int + 1,
            ));
            lemma_enc_one(smp[k as int]);
            assert(out@ =~= pre + enc_nums(hdr + smp.subrange(0, k as int + 1)));
        }
        k = k + 1;
    }
    proof {
        assert(smp.subrange(0, n as int) =~= smp);
        assert(out@ =~= spec_encode(img.model()));
    }
    out
}

/// Finds the index just past the third line break (or the buffer end).
fn find_cut(s: &Vec<u8>) -> (r: usize)
    ensures
        r <= s.len(),
        r as int == cut_after_header(s@, 0, 0),
{
    let mut i: usize = 0;
    let mut seen: u32 = 0;
    loop
        invariant
            i <= s.len(),
            seen <= 2,
            cut_after_header(s@, 0, 0) == cut_after_header(s@, i as int, seen as int),
        decreases s.len() - i,
    {
        if i == s.len() {
            return i;
        }
        if s[i] == 10 {
            if seen >= 2 {
                return i + 1;
            }
            seen = seen + 1;
        }
        i = i + 1;
    }
}

/// Expands a raw-binary bitmap into its ASCII form: the three header
/// lines are kept byte for byte, and every following byte becomes its
/// decimal value on a line of its own.
#[verifier::loop_isolation(false)]
pub fn parse_binary_pgm(buf: &Vec<u8>) -> (r: Vec<u8>)
    ensures
        r@ == spec_expand(buf@),
{
    let cut = find_cut(buf);
    let mut out: Vec<u8> = Vec::new();
    let mut k: usize = 0;
    while k < cut
        invariant
            k <= cut <= buf.len(),
            out@ == buf@.subrange(0, k as int),
        decreases cut - k,
    {
        let b = buf[k];
        out.push(b);
        proof {
            assert(out@ =~= buf@.subrange(0, k as int + 1));
        }
        k = k + 1;
    }
    proof {
        assert(buf@.subrange(cut as int, cut as int) =~= Seq::<u8>::empty());
        assert(byte_vals(Seq::<u8>::empty()) =~= Seq::<int>::empty());
        assert(enc_nums(Seq::<int>::empty()) =~= Seq::<u8>::empty());
        assert(out@ =~= buf@.subrange(0, cut as int) + enc_nums(
            byte_vals(buf@.subrange(cut as int, cut as int)),
        ));
    }
    let mut k2: usize = cut;
    while k2 < buf.len()
        invariant
            cut <= k2 <= buf.len(),
            out@ == buf@.subrange(0, cut as int) + enc_nums(
                byte_vals(buf@.subrange(cut as int, k2 as int)),
            ),
        decreases buf.len() - k2,
    {
        let b = buf[k2];
        push_dec(&mut out, b as u32);
        out.push(10);
        proof {
            let pfx = byte_vals(buf@.subrange(cut as int, k2 as int));
            let nxt = byte_vals(buf@.subrange(cut as int, k2 as int + 1));
            assert(nxt =~= pfx + seq![b as int]);
            lemma_enc_nums_concat(pfx, seq![b as int]);
            lemma_enc_one(b as int);
            assert(out@ =~= buf@.subrange(0, cut as int) + enc_nums(nxt));
        }
        k2 = k2 + 1;
    }
    proof {
        assert(out@ =~= spec_expand(buf@));
    }
    out
}

} // verus!
