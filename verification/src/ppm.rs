//! Plain-text image encoding.
//!
//! A finished canvas is written out in the text form of the portable
//! pixmap format: a header naming the format, the image size and the
//! sample depth, then every row's red/green/blue samples as decimal
//! numbers separated by blanks. Sample lines are wrapped so that no line
//! of the pixel text grows past 70 bytes. The scaling of a color to its
//! 0..=255 samples is the caller's numeric concern; these functions take
//! the samples as they are to be printed, row by row, three per pixel.

use vstd::arithmetic::div_mod::lemma_fundamental_div_mod;
use vstd::prelude::*;

verus! {

/// Decimal digits of `n`, most significant first, as ASCII bytes.
pub open spec fn dec_bytes(n: nat) -> Seq<u8>
    decreases n,
{
    if n < 10 {
        seq![(48 + n) as u8]
    } else {
        dec_bytes(n / 10) + seq![(48 + n % 10) as u8]
    }
}

/// `line` without its trailing blanks.
pub open spec fn trimmed(line: Seq<u8>) -> Seq<u8>
    decreases line.len(),
{
    if line.len() > 0 && line.last() == 32 {
        trimmed(line.drop_last())
    } else {
        line
    }
}

/// The text of one pixel row from its `k`-th sample on, with `line`
/// holding the text of the current output line so far: a sample whose
/// digits would push the current line past 69 bytes first flushes the
/// line (trailing blank trimmed, newline appended), every sample then
/// appends its digits and one blank, and the last sample's line is
/// flushed at the end of the row.
pub open spec fn row_bytes(samples: Seq<u8>, k: int, line: Seq<u8>) -> Seq<u8>
    decreases samples.len() - k,
{
    if k < 0 || k >= samples.len() {
        trimmed(line) + seq![10u8]
    } else {
        let s = dec_bytes(samples[k] as nat);
        if s.len() + line.len() > 69 {
            trimmed(line) + seq![10u8] + row_bytes(samples, k + 1, s + seq![32u8])
        } else {
            row_bytes(samples, k + 1, line + s + seq![32u8])
        }
    }
}

/// The pixel text of a whole image whose rows hold `row_len` samples
/// each: one wrapped row after another.
pub open spec fn body_bytes(samples: Seq<u8>, row_len: int) -> Seq<u8>
    decreases samples.len(),
{
    if row_len <= 0 || samples.len() < row_len {
        Seq::empty()
    } else {
        row_bytes(samples.take(row_len), 0, Seq::empty()) + body_bytes(
            samples.skip(row_len),
            row_len,
        )
    }
}

/// The header of an image of `width` by `height` pixels: the format name,
/// the size, and the largest sample value.
pub open spec fn header_bytes(width: nat, height: nat) -> Seq<u8> {
    seq![80u8, 51u8, 10u8] + dec_bytes(width) + seq![32u8] + dec_bytes(height) + seq![
        10u8,
        50u8,
        53u8,
        53u8,
    ]
}

/// The number a string of decimal digits denotes.
pub open spec fn val_of(s: Seq<u8>) -> int
    decreases s.len(),
{
    if s.len() == 0 {
        0
    } else {
        val_of(s.drop_last()) * 10 + (s.last() as int - 48)
    }
}

/// The decimal text of `n` is made of digits and reads back as `n`.
pub proof fn lemma_dec_bytes_value(n: nat)
    ensures
        val_of(dec_bytes(n)) == n,
        forall|i: int| 0 <= i < dec_bytes(n).len() ==> 48 <= #[trigger] dec_bytes(n)[i] <= 57,
    decreases n,
{
    if n < 10 {
        assert(dec_bytes(n).drop_last() =~= Seq::<u8>::empty());
        assert(val_of(Seq::<u8>::empty()) == 0);
        assert(dec_bytes(n).last() == (48 + n) as u8);
        assert(((48 + n) as u8) as int == 48 + n);
    } else {
        lemma_dec_bytes_value(n / 10);
        let prefix = dec_bytes(n / 10);
        let digit = (48 + n % 10) as u8;
        assert(digit as int == 48 + n % 10);
        assert(dec_bytes(n) == prefix + seq![digit]);
        assert((prefix + seq![digit]).drop_last() =~= prefix);
        assert((prefix + seq![digit]).last() == digit);
        assert(val_of(dec_bytes(n)) == val_of(prefix) * 10 + (digit as int - 48));
        assert(n == (n / 10) * 10 + n % 10) by {
            lemma_fundamental_div_mod(n as int, 10);
        }
        assert(forall|i: int|
            0 <= i < prefix.len() ==> (prefix + seq![digit])[i] == #[trigger] prefix[i]);
    }
}

/// Between any position of `s` and the `bound`-th byte after it a
/// newline occurs.
pub open spec fn has_newline(s: Seq<u8>, i: int, j: int) -> bool {
    exists|k: int| i <= k <= j && s[k] == 10
}

/// No stretch of `s` longer than `bound` bytes is free of newlines: no
/// output line outgrows `bound` bytes.
pub open spec fn wrapped(s: Seq<u8>, bound: int) -> bool {
    forall|i: int, j: int| 0 <= i && j == i + bound && j < s.len() ==> #[trigger] has_newline(s, i, j)
}

/// A piece no longer than `bound` plus its final newline is wrapped.
proof fn lemma_wrapped_short(s: Seq<u8>, bound: int)
    requires
        bound >= 0,
        s.len() <= bound + 1,
        s.len() > 0 ==> s.last() == 10,
    ensures
        wrapped(s, bound),
{
    assert forall|i: int, j: int| 0 <= i && j == i + bound && j < s.len() implies has_newline(
        s,
        i,
        j,
    ) by {
        assert(s[s.len() - 1] == 10);
    }
}

/// Gluing wrapped pieces at a newline keeps the whole wrapped.
proof fn lemma_wrapped_concat(a: Seq<u8>, c: Seq<u8>, bound: int)
    requires
        bound >= 0,
        wrapped(a, bound),
        wrapped(c, bound),
        a.len() > 0,
        a.last() == 10,
    ensures
        wrapped(a + c, bound),
{
    let s = a + c;
    assert forall|i: int, j: int| 0 <= i && j == i + bound && j < s.len() implies has_newline(
        s,
        i,
        j,
    ) by {
        if i + bound < a.len() {
            assert(has_newline(a, i, i + bound));
            let k = choose|k: int| i <= k <= i + bound && a[k] == 10;
            assert(s[k] == 10);
        } else if i >= a.len() {
            let base = i - a.len();
            assert(has_newline(c, base, base + bound));
            let k = choose|k: int| base <= k <= base + bound && c[k] == 10;
            assert(s[k + a.len()] == 10);
        } else {
            assert(s[a.len() - 1] == a[a.len() - 1]);
            assert(s[a.len() - 1] == 10);
        }
    }
}

/// Trimming never lengthens a line.
proof fn lemma_trimmed_len(line: Seq<u8>)
    ensures
        trimmed(line).len() <= line.len(),
    decreases line.len(),
{
    if line.len() > 0 && line.last() == 32 {
        lemma_trimmed_len(line.drop_last());
    }
}

/// A row's text is never empty and always ends with a newline.
proof fn lemma_row_bytes_ends_newline(samples: Seq<u8>, k: int, line: Seq<u8>)
    ensures
        row_bytes(samples, k, line).len() > 0,
        row_bytes(samples, k, line).last() == 10,
    decreases samples.len() - k,
{
    if k < 0 || k >= samples.len() {
        assert((trimmed(line) + seq![10u8]).last() == 10);
    } else {
        let s = dec_bytes(samples[k] as nat);
        if s.len() + line.len() > 69 {
            let rest = row_bytes(samples, k + 1, s + seq![32u8]);
            lemma_row_bytes_ends_newline(samples, k + 1, s + seq![32u8]);
            assert((trimmed(line) + seq![10u8] + rest).last() == rest.last());
        } else {
            lemma_row_bytes_ends_newline(samples, k + 1, line + s + seq![32u8]);
        }
    }
}

/// A row's text is wrapped at 70 bytes, for any current line that has
/// room left on it.
proof fn lemma_row_bytes_wrapped(samples: Seq<u8>, k: int, line: Seq<u8>)
    requires
        line.len() <= 70,
    ensures
        wrapped(row_bytes(samples, k, line), 70),
    decreases samples.len() - k,
{
    lemma_trimmed_len(line);
    if k < 0 || k >= samples.len() {
        assert((trimmed(line) + seq![10u8]).last() == 10);
        lemma_wrapped_short(trimmed(line) + seq![10u8], 70);
    } else {
        let s = dec_bytes(samples[k] as nat);
        lemma_dec_bytes_short(samples[k] as nat);
        if s.len() + line.len() > 69 {
            let flushed = trimmed(line) + seq![10u8];
            assert(flushed.last() == 10);
            lemma_wrapped_short(flushed, 70);
            lemma_row_bytes_wrapped(samples, k + 1, s + seq![32u8]);
            lemma_wrapped_concat(flushed, row_bytes(samples, k + 1, s + seq![32u8]), 70);
            assert(flushed + row_bytes(samples, k + 1, s + seq![32u8]) =~= row_bytes(
                samples,
                k,
                line,
            ));
        } else {
            lemma_row_bytes_wrapped(samples, k + 1, line + s + seq![32u8]);
        }
    }
}

/// No line of the pixel text outgrows 70 bytes: between any byte of the
/// body and the seventieth after it, a newline occurs.
pub proof fn lemma_body_bytes_wrapped(samples: Seq<u8>, row_len: int)
    ensures
        wrapped(body_bytes(samples, row_len), 70),
    decreases samples.len(),
{
    if row_len <= 0 || samples.len() < row_len {
    } else {
        let row = row_bytes(samples.take(row_len), 0, Seq::empty());
        lemma_row_bytes_wrapped(samples.take(row_len), 0, Seq::empty());
        lemma_row_bytes_ends_newline(samples.take(row_len), 0, Seq::empty());
        lemma_body_bytes_wrapped(samples.skip(row_len), row_len);
        lemma_wrapped_concat(row, body_bytes(samples.skip(row_len), row_len), 70);
    }
}

/// A number below 1000 prints in at most three digits.
proof fn lemma_dec_bytes_short(n: nat)
    requires
        n < 1000,
    ensures
        1 <= dec_bytes(n).len() <= 3,
        n < 10 ==> dec_bytes(n).len() == 1,
        n < 100 ==> dec_bytes(n).len() <= 2,
    decreases n,
{
    if n >= 10 {
        lemma_dec_bytes_short(n / 10);
    }
}

/// The decimal text of `n`.
fn dec(n: usize) -> (r: Vec<u8>)
    ensures
        r@ == dec_bytes(n as nat),
    decreases n,
{
    if n < 10 {
        let mut r: Vec<u8> = Vec::new();
        r.push(48 + n as u8);
        proof {
            assert(r@ =~= dec_bytes(n as nat));
        }
        r
    } else {
        let mut r = dec(n / 10);
        r.push(48 + (n % 10) as u8);
        proof {
            assert(r@ =~= dec_bytes(n as nat));
        }
        r
    }
}

/// Append every byte of `src` to `out`.
fn append(out: &mut Vec<u8>, src: &Vec<u8>)
    ensures
        final(out)@ == old(out)@ + src@,
{
    let mut t: usize = 0;
    proof {
        assert(out@ =~= old(out)@ + src@.take(0));
    }
    while t < src.len()
        invariant
            t <= src@.len(),
            out@ == old(out)@ + src@.take(t as int),
        decreases src@.len() - t,
    {
        out.push(src[t]);
        proof {
            assert(old(out)@ + src@.take(t + 1) =~= (old(out)@ + src@.take(t as int)).push(
                src@[t as int],
            ));
        }
        t = t + 1;
    }
    proof {
        assert(src@.take(src@.len() as int) =~= src@);
    }
}

/// Append `line` to `out` with its trailing blanks removed, then a
/// newline.
fn flush_line(out: &mut Vec<u8>, line: &Vec<u8>)
    ensures
        final(out)@ == old(out)@ + trimmed(line@) + seq![10u8],
{
    let mut j: usize = line.len();
    proof {
        assert(line@.take(line@.len() as int) =~= line@);
    }
    while j > 0 && line[j - 1] == 32
        invariant
            j <= line@.len(),
            trimmed(line@) == trimmed(line@.take(j as int)),
        decreases j,
    {
        proof {
            assert(line@.take(j as int).last() == line@[j - 1]);
            assert(line@.take(j as int).drop_last() =~= line@.take(j - 1));
        }
        j = j - 1;
    }
    proof {
        if j == 0 {
            assert(line@.take(0) =~= Seq::<u8>::empty());
        }
        assert(trimmed(line@) == line@.take(j as int));
    }
    let mut t: usize = 0;
    let ghost entry = out@;
    while t < j
        invariant
            t <= j <= line@.len(),
            out@ == entry + line@.take(j as int).take(t as int),
        decreases j - t,
    {
        proof {
            assert(line@.take(j as int)[t as int] == line@[t as int]);
            assert(entry + line@.take(j as int).take(t + 1) =~= (entry + line@.take(
                j as int,
            ).take(t as int)).push(line@[t as int]));
        }
        out.push(line[t]);
        t = t + 1;
    }
    proof {
        assert(line@.take(j as int).take(j as int) =~= line@.take(j as int));
    }
    out.push(10);
    proof {
        assert(out@ =~= old(out)@ + trimmed(line@) + seq![10u8]);
    }
}

/// The header of an image of `width` by `height` pixels.
pub fn ppm_header(width: usize, height: usize) -> (r: Vec<u8>)
    ensures
        r@ == header_bytes(width as nat, height as nat),
{
    let mut r: Vec<u8> = Vec::new();
    r.push(80);  // 'P'
    r.push(51);  // '3'
    r.push(10);
    let w = dec(width);
    append(&mut r, &w);
    r.push(32);
    let h = dec(height);
    append(&mut r, &h);
    r.push(10);
    r.push(50);  // '2'
    r.push(53);  // '5'
    r.push(53);  // '5'
    proof {
        assert(r@ =~= header_bytes(width as nat, height as nat));
    }
    r
}

/// The pixel text of an image of `width` by `height` pixels whose
/// samples, three per pixel and row by row, are given in `samples`.
pub fn ppm_body(width: usize, height: usize, samples: &Vec<u8>) -> (r: Vec<u8>)
    requires
        width >= 1,
        3 * width <= usize::MAX,
        samples@.len() == 3 * width * height,
    ensures
        r@ == body_bytes(samples@, 3 * width as int),
{
    let row_len: usize = 3 * width;
    let total: usize = samples.len();
    let mut out: Vec<u8> = Vec::new();
    let mut y: usize = 0;
    let mut off: usize = 0;
    proof {
        assert(out@ + body_bytes(samples@.skip(0), row_len as int) =~= body_bytes(
            samples@,
            row_len as int,
        )) by {
            assert(samples@.skip(0) =~= samples@);
        }
    }
    while y < height
        invariant
            1 <= row_len == 3 * width,
            y <= height,
            off == y * row_len,
            samples@.len() == row_len * height,
            samples@.len() == total,
            out@ + body_bytes(samples@.skip(off as int), row_len as int) == body_bytes(
                samples@,
                row_len as int,
            ),
        decreases height - y,
    {
        proof {
            assert((y + 1) * row_len <= height * row_len) by (nonlinear_arith)
                requires
                    y + 1 <= height,
                    0 <= row_len,
            ;
            assert((y + 1) * row_len == y * row_len + row_len) by (nonlinear_arith);
            assert(height * row_len == row_len * height) by (nonlinear_arith);
        }
        let end: usize = off + row_len;
        let ghost row = samples@.subrange(off as int, end as int);
        let ghost rest = samples@.skip(off as int);
        proof {
            assert(rest.len() >= row_len);
            assert(rest.take(row_len as int) =~= row);
            assert(rest.skip(row_len as int) =~= samples@.skip(end as int));
            assert(body_bytes(rest, row_len as int) == row_bytes(row, 0, Seq::empty())
                + body_bytes(samples@.skip(end as int), row_len as int));
        }
        let ghost row_start = out@;
        let mut line: Vec<u8> = Vec::new();
        let mut k: usize = 0;
        proof {
            assert(line@ =~= Seq::<u8>::empty());
        }
        while k < row_len
            invariant
                k <= row_len,
                off + row_len <= samples@.len(),
                samples@.len() == total,
                row == samples@.subrange(off as int, off + row_len),
                line@.len() <= 70,
                row_start + row_bytes(row, 0, Seq::empty()) == out@ + row_bytes(
                    row,
                    k as int,
                    line@,
                ),
            decreases row_len - k,
        {
            let s = dec(samples[off + k] as usize);
            proof {
                lemma_dec_bytes_short(samples@[off + k] as nat);
                assert(row[k as int] == samples@[off + k]);
            }
            let ghost line_before = line@;
            let ghost out_before = out@;
            if s.len() + line.len() > 69 {
                flush_line(&mut out, &line);
                line = Vec::new();
                append(&mut line, &s);
                line.push(32);
                proof {
                    assert(line@ =~= s@ + seq![32u8]);
                    assert(row_bytes(row, k as int, line_before) == trimmed(line_before) + seq![
                        10u8,
                    ] + row_bytes(row, k + 1, s@ + seq![32u8]));
                    assert(out@ + row_bytes(row, k + 1, line@) =~= out_before + row_bytes(
                        row,
                        k as int,
                        line_before,
                    ));
                }
            } else {
                append(&mut line, &s);
                line.push(32);
                proof {
                    assert(line@ =~= line_before + s@ + seq![32u8]);
                    assert(row_bytes(row, k as int, line_before) == row_bytes(
                        row,
                        k + 1,
                        line_before + s@ + seq![32u8],
                    ));
                }
            }
            k = k + 1;
        }
        let ghost out_before = out@;
        let ghost line_final = line@;
        flush_line(&mut out, &line);
        proof {
            assert(row_bytes(row, row_len as int, line_final) == trimmed(line_final) + seq![
                10u8,
            ]);
            assert(out@ =~= row_start + row_bytes(row, 0, Seq::empty())) by {
                assert(out@ == out_before + trimmed(line_final) + seq![10u8]);
                assert(row_start + row_bytes(row, 0, Seq::empty()) == out_before + row_bytes(
                    row,
                    row_len as int,
                    line_final,
                ));
            }
            assert(out@ + body_bytes(samples@.skip(end as int), row_len as int) =~= body_bytes(
                samples@,
                row_len as int,
            )) by {
                assert(row_start + body_bytes(rest, row_len as int) == body_bytes(
                    samples@,
                    row_len as int,
                ));
                assert(body_bytes(rest, row_len as int) == row_bytes(row, 0, Seq::empty())
                    + body_bytes(samples@.skip(end as int), row_len as int));
            }
        }
        y = y + 1;
        off = end;
    }
    proof {
        assert(row_len * height == height * row_len) by (nonlinear_arith);
        assert(off == samples@.len());
        assert(samples@.skip(off as int) =~= Seq::<u8>::empty());
        assert(body_bytes(Seq::<u8>::empty(), row_len as int) == Seq::<u8>::empty());
        assert(out@ =~= body_bytes(samples@, 3 * width as int));
    }
    out
}

} // verus!
