//! The round-trip law: parsing the re-encoding of a decoded bitmap
//! reproduces the same normalized sample grid.

use vstd::prelude::*;
use crate::pgm::{
    all_digits, clamped, dec_digits, digits_val, enc_nums, is_digit, is_ws, read_nat,
    read_samples, skip_blanks, spec_encode, spec_parse, tok_end, FormatError, PgmModel, ScanState,
};

verus! {

/// The decimal digits of `n` are digits, at least one of them, and they
/// read back as `n`.
proof fn lemma_dec_digits_props(n: int)
    requires
        0 <= n,
    ensures
        all_digits(dec_digits(n)),
        digits_val(dec_digits(n)) == n,
        dec_digits(n).len() >= 1,
    decreases n,
{
    if n < 10 {
        let s = dec_digits(n);
        assert(s =~= seq![(48 + n) as u8]);
        assert(s.drop_last() =~= Seq::<u8>::empty());
        assert(s.last() == (48 + n) as u8);
        assert(digits_val(Seq::<u8>::empty()) == 0);
        assert(digits_val(s) == digits_val(Seq::<u8>::empty()) * 10 + (s.last() - 48));
        assert(digits_val(s) == n);
    } else {
        lemma_dec_digits_props(n / 10);
        let p = dec_digits(n / 10);
        let s = dec_digits(n);
        assert(s == p + seq![(48 + n % 10) as u8]);
        assert(s.drop_last() =~= p);
        assert(s.last() == (48 + n % 10) as u8);
        assert(digits_val(s) == digits_val(p) * 10 + (n % 10));
        assert((n / 10) * 10 + n % 10 == n);
        assert forall|k: int| 0 <= k < s.len() implies is_digit(#[trigger] s[k]) by {
            if k < p.len() {
                assert(s[k] == p[k]);
            } else {
                assert(s[k] == (48 + n % 10) as u8);
            }
        }
    }
}

/// The token that starts at `i` ends exactly at the first whitespace.
proof fn lemma_tok_end_at(s: Seq<u8>, i: int, j: int)
    requires
        0 <= i <= j <= s.len(),
        forall|k: int| i <= k < j ==> !is_ws(#[trigger] s[k]),
        j == s.len() || is_ws(s[j]),
    ensures
        tok_end(s, i) == j,
    decreases j - i,
{
    if i < j {
        lemma_tok_end_at(s, i + 1, j);
    }
}

/// At a whitespace position `p` whose tail is the encoding of the
/// numbers `ns`, the next numeric token read is `ns`'s first number,
/// and past it the tail is the encoding of the rest.
proof fn lemma_read_first_num(s: Seq<u8>, p: int, ns: Seq<int>)
    requires
        0 <= p < s.len(),
        is_ws(s[p]),
        ns.len() >= 1,
        forall|k: int| 0 <= k < ns.len() ==> 0 <= #[trigger] ns[k] <= u32::MAX,
        s.subrange(p + 1, s.len() as int) == enc_nums(ns),
    ensures
        p + 1 + dec_digits(ns[0]).len() < s.len(),
        read_nat(s, p) == Some((ns[0], p + 1 + dec_digits(ns[0]).len())),
        s[p + 1 + dec_digits(ns[0]).len()] == 10,
        is_ws(s[p + 1 + dec_digits(ns[0]).len()]),
        s.subrange(p + 2 + dec_digits(ns[0]).len(), s.len() as int) == enc_nums(ns.drop_first()),
{
    let d = dec_digits(ns[0]);
    lemma_dec_digits_props(ns[0]);
    let tail = s.subrange(p + 1, s.len() as int);
    let rest = enc_nums(ns.drop_first());
    let q = p + 1 + d.len();
    assert(enc_nums(ns) == d + seq![10u8] + rest);
    assert(tail.len() == d.len() + 1 + rest.len());
    assert(q < s.len());
    assert forall|k: int| 0 <= k < d.len() implies s[p + 1 + k] == d[k] by {
        assert(tail[k] == s[p + 1 + k]);
        assert(enc_nums(ns)[k] == d[k]);
    }
    assert(s[q] == 10) by {
        assert(tail[d.len() as int] == s[q]);
        assert(enc_nums(ns)[d.len() as int] == 10u8);
    }
    assert(is_digit(s[p + 1])) by {
        assert(s[p + 1] == d[0]);
    }
    if s[p] == 10 {
        assert(skip_blanks(s, p, ScanState::MidLine) == skip_blanks(s, p + 1, ScanState::LineStart));
        assert(skip_blanks(s, p + 1, ScanState::LineStart) == p + 1);
    } else {
        assert(skip_blanks(s, p, ScanState::MidLine) == skip_blanks(s, p + 1, ScanState::MidLine));
        assert(skip_blanks(s, p + 1, ScanState::MidLine) == p + 1);
    }
    assert forall|k: int| p + 1 <= k < q implies !is_ws(#[trigger] s[k]) by {
        assert(s[k] == d[k - p - 1]);
        assert(is_digit(s[k]));
    }
    lemma_tok_end_at(s, p + 1, q);
    assert(s.subrange(p + 1, q) =~= d);
    assert(read_nat(s, p) == Some((ns[0], q)));
    assert forall|k: int| 0 <= k < rest.len() implies s.subrange(q + 1, s.len() as int)[k]
        == rest[k] by {
        assert(s.subrange(q + 1, s.len() as int)[k] == s[q + 1 + k]);
        assert(tail[d.len() + 1 + k] == s[q + 1 + k]);
        assert(enc_nums(ns)[d.len() + 1 + k] == rest[k]);
    }
    assert(s.subrange(q + 1, s.len() as int) =~= rest);
}

/// At a whitespace position `p` whose tail encodes the samples `ns`,
/// each in `[0, m]`, reading `ns.len()` samples yields exactly `ns`.
proof fn lemma_read_samples_enc(s: Seq<u8>, p: int, ns: Seq<int>, m: int)
    requires
        0 <= p < s.len(),
        is_ws(s[p]),
        0 < m <= u32::MAX,
        forall|k: int| 0 <= k < ns.len() ==> 0 <= #[trigger] ns[k] <= m,
        s.subrange(p + 1, s.len() as int) == enc_nums(ns),
    ensures
        read_samples(s, p, ns.len() as int, m) == Some(ns),
    decreases ns.len(),
{
    if ns.len() == 0 {
        assert(read_samples(s, p, 0, m) == Some(Seq::<int>::empty()));
        assert(Seq::<int>::empty() =~= ns);
    } else {
        assert forall|k: int| 0 <= k < ns.len() implies 0 <= #[trigger] ns[k] <= u32::MAX by {}
        lemma_read_first_num(s, p, ns);
        let q = p + 1 + dec_digits(ns[0]).len();
        assert forall|k: int| 0 <= k < ns.drop_first().len() implies 0 <= #[trigger] ns.drop_first()[k]
            <= m by {
            assert(ns.drop_first()[k] == ns[k + 1]);
        }
        lemma_read_samples_enc(s, q, ns.drop_first(), m);
        assert(clamped(ns[0], m) == ns[0]);
        assert(seq![ns[0]] + ns.drop_first() =~= ns);
        assert(read_samples(s, p, ns.len() as int, m) == Some(ns));
    }
}

/// Round trip: parsing the encoding of any well-formed bitmap yields
/// exactly that bitmap — the same dimensions, the same maximum, and the
/// same samples, hence the same normalized sample grid.
pub proof fn lemma_parse_encode_round_trip(m: PgmModel)
    requires
        m.wf(),
    ensures
        spec_parse(spec_encode(m)) == Ok::<PgmModel, FormatError>(m),
{
    let s = spec_encode(m);
    let all = seq![m.width, m.height, m.max_value] + m.samples;
    assert(s == seq![80u8, 50u8, 10u8] + enc_nums(all));
    assert(s[0] == 80u8);
    assert(s[1] == 50u8);
    assert(s[2] == 10u8);
    assert forall|k: int| 0 <= k < all.len() implies 0 <= #[trigger] all[k] <= u32::MAX by {
        if k >= 3 {
            assert(all[k] == m.samples[k - 3]);
        }
    }
    assert(skip_blanks(s, 0, ScanState::LineStart) == 0);
    assert forall|k: int| 0 <= k < 2 implies !is_ws(#[trigger] s[k]) by {}
    lemma_tok_end_at(s, 0, 2);
    let magic = s.subrange(0, 2);
    assert(magic =~= seq![80u8, 50u8]);
    assert(seq![80u8, 50u8][1] == 50u8);
    assert(seq![80u8, 53u8][1] == 53u8);
    assert(magic != seq![80u8, 53u8]);
    assert forall|k: int| 0 <= k < enc_nums(all).len() implies s.subrange(3, s.len() as int)[k]
        == enc_nums(all)[k] by {
        assert(s.subrange(3, s.len() as int)[k] == s[3 + k]);
        assert((seq![80u8, 50u8, 10u8] + enc_nums(all))[3 + k] == enc_nums(all)[k]);
    }
    assert(s.subrange(3, s.len() as int) =~= enc_nums(all));
    assert(all[0] == m.width);
    lemma_read_first_num(s, 2, all);
    let t1 = all.drop_first();
    let q1: int = 2 + 1 + dec_digits(all[0]).len() as int;
    assert(t1[0] == m.height);
    assert forall|k: int| 0 <= k < t1.len() implies 0 <= #[trigger] t1[k] <= u32::MAX by {
        assert(t1[k] == all[k + 1]);
    }
    lemma_read_first_num(s, q1, t1);
    let t2 = t1.drop_first();
    let q2: int = q1 + 1 + dec_digits(t1[0]).len() as int;
    assert(t2[0] == m.max_value);
    assert forall|k: int| 0 <= k < t2.len() implies 0 <= #[trigger] t2[k] <= u32::MAX by {
        assert(t2[k] == t1[k + 1]);
    }
    lemma_read_first_num(s, q2, t2);
    let t3 = t2.drop_first();
    let q3: int = q2 + 1 + dec_digits(t2[0]).len() as int;
    assert(t3 =~= m.samples);
    assert forall|k: int| 0 <= k < t3.len() implies 0 <= #[trigger] t3[k] <= m.max_value by {
        assert(t3[k] == m.samples[k]);
    }
    lemma_read_samples_enc(s, q3, t3, m.max_value);
    assert(read_samples(s, q3, m.samples.len() as int, m.max_value) == Some(m.samples));
    assert(m.samples.len() as int == m.width * m.height);
    assert(spec_parse(s) == Ok::<PgmModel, FormatError>(
        PgmModel {
            width: m.width,
            height: m.height,
            max_value: m.max_value,
            samples: m.samples,
        },
    ));
    assert(PgmModel {
        width: m.width,
        height: m.height,
        max_value: m.max_value,
        samples: m.samples,
    } == m);
}

} // verus!
