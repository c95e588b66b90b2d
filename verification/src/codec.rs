//! Run-length pixel codec for compressed tile assets.
//!
//! A compressed block is a sequence of `u16` words: one header word holding
//! the decompressed pixel count, then control records. A control word packs
//! `(run_length << 8) | data_length`; it is followed by `data_length`
//! literal pixel values, after which the last literal implicitly repeats
//! `run_length` more times. A record with `data_length == 0` advances the
//! output cursor by `run_length` slots without writing anything.
//!
//! The encoder is a greedy single pass: it keeps a pending literal run and
//! a trailing repeat count, flushes a record when the repeat count reaches
//! three or the literal run is full, and otherwise folds short repeats into
//! the literal run, which is cheaper than a second control word.

use vstd::prelude::*;
use vstd::pervasive::VecAdditionalExecFns;

verus! {

/// Largest pixel count a block can describe: the header is a single `u16`.
pub const MAX_PIXELS: usize = 65535;

/// Control word for a record: `run_length` in the high byte,
/// `data_length` in the low byte.
pub open spec fn spec_ctrl_word(data_length: u16, run_length: u16) -> u16
    recommends
        data_length < 256,
        run_length < 256,
{
    (run_length * 256 + data_length) as u16
}

/// Number of pixels a compressed block declares in its header.
pub open spec fn spec_decompressed_size(input: Seq<u16>) -> u16 {
    if input.len() > 0 {
        input[0]
    } else {
        0
    }
}

/// `out` with `vals` written at positions `pos .. pos + vals.len()` and
/// everything else unchanged.
pub open spec fn spec_splice(out: Seq<u16>, pos: int, vals: Seq<u16>) -> Seq<u16> {
    Seq::new(out.len(), |k: int| if pos <= k < pos + vals.len() { vals[k - pos] } else { out[k] })
}

/// The decoder, one record at a time, from word `i` of `input`, with the
/// output cursor at `pos` of `out`. Returns the output and the final cursor.
/// A truncated record leaves the output as it stands.
pub open spec fn spec_decode_from(input: Seq<u16>, i: int, out: Seq<u16>, pos: int) -> (Seq<u16>, int)
    decreases input.len() - i,
{
    if i < 0 || i >= input.len() {
        (out, pos)
    } else {
        let ctrl = input[i] as int;
        let dl = ctrl % 256;
        let rl = ctrl / 256;
        if dl == 0 {
            spec_decode_from(input, i + 1, out, pos + rl)
        } else if i + dl >= input.len() {
            (out, pos)
        } else {
            let vals = input.subrange(i + 1, i + 1 + dl)
                + Seq::new(rl as nat, |k: int| input[i + dl]);
            spec_decode_from(input, i + 1 + dl, spec_splice(out, pos, vals), pos + dl + rl)
        }
    }
}

/// Decoding `input` into a buffer that starts as `out`: the header word is
/// skipped, the cursor starts at zero.
pub open spec fn spec_decompress(input: Seq<u16>, out: Seq<u16>) -> Seq<u16> {
    spec_decode_from(input, 1, out, 0).0
}

/// The records from word `i` on are complete and keep the cursor, starting
/// at `pos`, within an output of length `out_len`. This is what the decoder
/// assumes of build-time-generated blocks.
pub open spec fn spec_records_ok(input: Seq<u16>, i: int, pos: int, out_len: int) -> bool
    decreases input.len() - i,
{
    if i < 0 || i >= input.len() {
        true
    } else {
        let ctrl = input[i] as int;
        let dl = ctrl % 256;
        let rl = ctrl / 256;
        if dl == 0 {
            pos + rl <= out_len && spec_records_ok(input, i + 1, pos + rl, out_len)
        } else {
            i + dl < input.len() && pos + dl + rl <= out_len
                && spec_records_ok(input, i + 1 + dl, pos + dl + rl, out_len)
        }
    }
}

/// A compressed block well-formed for an output buffer of `out_len` pixels.
pub open spec fn spec_block_ok(input: Seq<u16>, out_len: int) -> bool {
    spec_records_ok(input, 1, 0, out_len)
}

/// The greedy encoder from input word `i` on, with a pending record: the
/// literal run is `input[ds .. ds + dl]` and the last literal has repeated
/// `rl` more times. Returns the records still to be emitted.
pub open spec fn spec_comp_from(input: Seq<u16>, i: int, ds: int, dl: int, rl: int) -> Seq<u16>
    recommends
        1 <= dl <= 255,
        0 <= rl <= 255,
        0 <= ds,
        ds + dl + rl == i,
    decreases input.len() - i,
{
    if i < 0 || i >= input.len() {
        seq![spec_ctrl_word(dl as u16, rl as u16)] + input.subrange(ds, ds + dl)
    } else {
        let v = input[i];
        let last = input[ds + dl - 1];
        if v == last && rl < 255 {
            spec_comp_from(input, i + 1, ds, dl, rl + 1)
        } else if rl >= 3 || dl + rl + 1 > 255 {
            seq![spec_ctrl_word(dl as u16, rl as u16)] + input.subrange(ds, ds + dl)
                + spec_comp_from(input, i + 1, i, 1, 0)
        } else {
            spec_comp_from(input, i + 1, ds, dl + rl + 1, 0)
        }
    }
}

/// The whole compressed block for `input`: header word, then the records.
pub open spec fn spec_compress(input: Seq<u16>) -> Seq<u16>
    recommends
        input.len() <= MAX_PIXELS,
{
    if input.len() == 0 {
        seq![0u16]
    } else {
        seq![input.len() as u16] + spec_comp_from(input, 1, 0, 1, 0)
    }
}

pub fn ctrl_word(data_length: u8, run_length: u8) -> (r: u16)
    ensures
        r == spec_ctrl_word(data_length as u16, run_length as u16),
{
    let r: u16 = ((run_length as u16) << 8) | (data_length as u16);
    proof {
        let d = data_length as u16;
        let rl = run_length as u16;
        assert(((rl << 8) | d) == rl * 256 + d) by (bit_vector)
            requires
                d < 256,
                rl < 256,
        ;
    }
    r
}

pub fn decompressed_size(input: &Vec<u16>) -> (r: u16)
    ensures
        r == spec_decompressed_size(input@),
{
    if input.len() > 0 {
        input[0]
    } else {
        0
    }
}

proof fn lemma_ctrl_decompose(dl: u16, rl: u16)
    requires
        dl < 256,
        rl < 256,
    ensures
        spec_ctrl_word(dl, rl) as int % 256 == dl as int,
        spec_ctrl_word(dl, rl) as int / 256 == rl as int,
{
    let c = rl * 256 + dl;
    assert(c as int % 256 == dl as int && c as int / 256 == rl as int) by (nonlinear_arith)
        requires
            dl < 256,
            rl < 256,
            c == rl * 256 + dl,
    ;
}

/// Writing one more value right after a splice extends the splice.
pub proof fn lemma_splice_push(out: Seq<u16>, pos: int, vals: Seq<u16>, v: u16)
    requires
        0 <= pos,
        pos + vals.len() < out.len(),
    ensures
        spec_splice(out, pos, vals).update(pos + vals.len(), v) == spec_splice(out, pos, vals.push(v)),
{
    assert(spec_splice(out, pos, vals).update(pos + vals.len(), v)
        =~= spec_splice(out, pos, vals.push(v)));
}

/// Two adjacent splices are one splice of the concatenation.
proof fn lemma_splice_adjacent(out: Seq<u16>, pos: int, v1: Seq<u16>, v2: Seq<u16>)
    requires
        0 <= pos,
    ensures
        spec_splice(spec_splice(out, pos, v1), pos + v1.len(), v2) == spec_splice(out, pos, v1 + v2),
{
    assert(spec_splice(spec_splice(out, pos, v1), pos + v1.len(), v2)
        =~= spec_splice(out, pos, v1 + v2));
}

/// The decoder only looks at the words from its cursor on, so two inputs
/// that agree from their cursors on decode alike.
proof fn lemma_decode_shift(input1: Seq<u16>, i1: int, input2: Seq<u16>, i2: int, out: Seq<u16>, pos: int)
    requires
        0 <= i1 <= input1.len(),
        0 <= i2 <= input2.len(),
        input1.subrange(i1, input1.len() as int) == input2.subrange(i2, input2.len() as int),
    ensures
        spec_decode_from(input1, i1, out, pos) == spec_decode_from(input2, i2, out, pos),
    decreases input1.len() - i1,
{
    let tail1 = input1.subrange(i1, input1.len() as int);
    let tail2 = input2.subrange(i2, input2.len() as int);
    assert(tail1.len() == tail2.len());
    if i1 >= input1.len() {
        assert(i2 >= input2.len());
    } else {
        assert(input1[i1] == tail1[0] && input2[i2] == tail2[0]);
        let ctrl = input1[i1] as int;
        let dl = ctrl % 256;
        let rl = ctrl / 256;
        if dl == 0 {
            assert(tail1.subrange(1, tail1.len() as int) =~= input1.subrange(i1 + 1, input1.len() as int));
            assert(tail2.subrange(1, tail2.len() as int) =~= input2.subrange(i2 + 1, input2.len() as int));
            lemma_decode_shift(input1, i1 + 1, input2, i2 + 1, out, pos + rl);
        } else if i1 + dl >= input1.len() {
            assert(i2 + dl >= input2.len());
        } else {
            assert forall|k: int| i1 < k < input1.len() implies input1[k] == input2[i2 + (k - i1)] by {
                assert(input1[k] == tail1[k - i1]);
            }
            assert(input1.subrange(i1 + 1, i1 + 1 + dl) =~= input2.subrange(i2 + 1, i2 + 1 + dl));
            assert(input1[i1 + dl] == input2[i2 + dl]);
            let vals = input1.subrange(i1 + 1, i1 + 1 + dl)
                + Seq::new(rl as nat, |k: int| input1[i1 + dl]);
            let vals2 = input2.subrange(i2 + 1, i2 + 1 + dl)
                + Seq::new(rl as nat, |k: int| input2[i2 + dl]);
            assert(vals =~= vals2);
            assert(tail1.subrange(1 + dl, tail1.len() as int)
                =~= input1.subrange(i1 + 1 + dl, input1.len() as int));
            assert(tail2.subrange(1 + dl, tail2.len() as int)
                =~= input2.subrange(i2 + 1 + dl, input2.len() as int));
            lemma_decode_shift(input1, i1 + 1 + dl, input2, i2 + 1 + dl,
                spec_splice(out, pos, vals), pos + dl + rl);
        }
    }
}

/// Completeness mirrors the decoder's reads, so it shifts the same way.
proof fn lemma_records_ok_shift(input1: Seq<u16>, i1: int, input2: Seq<u16>, i2: int, pos: int, out_len: int)
    requires
        0 <= i1 <= input1.len(),
        0 <= i2 <= input2.len(),
        input1.subrange(i1, input1.len() as int) == input2.subrange(i2, input2.len() as int),
    ensures
        spec_records_ok(input1, i1, pos, out_len) == spec_records_ok(input2, i2, pos, out_len),
    decreases input1.len() - i1,
{
    let tail1 = input1.subrange(i1, input1.len() as int);
    let tail2 = input2.subrange(i2, input2.len() as int);
    assert(tail1.len() == tail2.len());
    if i1 >= input1.len() {
        assert(i2 >= input2.len());
    } else {
        assert(input1[i1] == tail1[0] && input2[i2] == tail2[0]);
        let ctrl = input1[i1] as int;
        let dl = ctrl % 256;
        let rl = ctrl / 256;
        if dl == 0 {
            assert(tail1.subrange(1, tail1.len() as int) =~= input1.subrange(i1 + 1, input1.len() as int));
            assert(tail2.subrange(1, tail2.len() as int) =~= input2.subrange(i2 + 1, input2.len() as int));
            lemma_records_ok_shift(input1, i1 + 1, input2, i2 + 1, pos + rl, out_len);
        } else if i1 + dl >= input1.len() {
            assert(i2 + dl >= input2.len());
        } else {
            assert(tail1.subrange(1 + dl, tail1.len() as int)
                =~= input1.subrange(i1 + 1 + dl, input1.len() as int));
            assert(tail2.subrange(1 + dl, tail2.len() as int)
                =~= input2.subrange(i2 + 1 + dl, input2.len() as int));
            lemma_records_ok_shift(input1, i1 + 1 + dl, input2, i2 + 1 + dl, pos + dl + rl, out_len);
        }
    }
}

/// How long the remaining records can get: at most two words per input
/// pixel not yet folded in, plus the pending record itself.
proof fn lemma_comp_from_len(input: Seq<u16>, i: int, ds: int, dl: int, rl: int)
    requires
        1 <= dl <= 255,
        0 <= rl <= 255,
        0 <= ds,
        ds + dl + rl == i,
        i <= input.len(),
    ensures
        spec_comp_from(input, i, ds, dl, rl).len() <= 2 * (input.len() - i) + dl + rl + 1,
        spec_comp_from(input, i, ds, dl, rl).len() >= 1 + dl,
    decreases input.len() - i,
{
    if i >= input.len() {
    } else {
        let v = input[i];
        let last = input[ds + dl - 1];
        if v == last && rl < 255 {
            lemma_comp_from_len(input, i + 1, ds, dl, rl + 1);
        } else if rl >= 3 || dl + rl + 1 > 255 {
            lemma_comp_from_len(input, i + 1, i, 1, 0);
        } else {
            lemma_comp_from_len(input, i + 1, ds, dl + rl + 1, 0);
        }
    }
}

/// The central encoder/decoder agreement: decoding the records still to be
/// emitted, with the cursor at the pending record's start, fills the buffer
/// with the rest of the input, provided the pending repeat region really
/// repeats the last literal.
proof fn lemma_comp_decode(input: Seq<u16>, i: int, ds: int, dl: int, rl: int, out: Seq<u16>)
    requires
        1 <= dl <= 255,
        0 <= rl <= 255,
        0 <= ds,
        ds + dl + rl == i,
        i <= input.len(),
        input.len() <= out.len(),
        forall|k: int| ds + dl <= k < i ==> #[trigger] input[k] == input[ds + dl - 1],
    ensures
        spec_decode_from(spec_comp_from(input, i, ds, dl, rl), 0, out, ds)
            == (spec_splice(out, ds, input.subrange(ds, input.len() as int)), input.len() as int),
        spec_records_ok(spec_comp_from(input, i, ds, dl, rl), 0, ds, out.len() as int),
    decreases input.len() - i,
{
    lemma_ctrl_decompose(dl as u16, rl as u16);
    if i >= input.len() {
        let rec = seq![spec_ctrl_word(dl as u16, rl as u16)] + input.subrange(ds, ds + dl);
        assert(rec.len() == 1 + dl);
        let vals = rec.subrange(1, 1 + dl) + Seq::new(rl as nat, |k: int| rec[dl]);
        assert(rec.subrange(1, 1 + dl) =~= input.subrange(ds, ds + dl));
        assert(rec[dl] == input[ds + dl - 1]);
        assert(vals =~= input.subrange(ds, input.len() as int));
        assert(spec_decode_from(rec, 1 + dl, spec_splice(out, ds, vals), ds + dl + rl)
            == (spec_splice(out, ds, vals), i));
        assert(rec[0] == spec_ctrl_word(dl as u16, rl as u16));
        assert(rec[0] as int % 256 == dl && rec[0] as int / 256 == rl);
        assert(spec_records_ok(rec, 1 + dl, ds + dl + rl, out.len() as int));
        assert(0 + dl < rec.len() && ds + dl + rl <= out.len());
        assert(spec_records_ok(rec, 0, ds, out.len() as int));
    } else {
        let v = input[i];
        let last = input[ds + dl - 1];
        if v == last && rl < 255 {
            lemma_comp_decode(input, i + 1, ds, dl, rl + 1, out);
        } else if rl >= 3 || dl + rl + 1 > 255 {
            let rec = seq![spec_ctrl_word(dl as u16, rl as u16)] + input.subrange(ds, ds + dl);
            let rest = spec_comp_from(input, i + 1, i, 1, 0);
            let whole = rec + rest;
            assert(spec_comp_from(input, i, ds, dl, rl) == whole);
            assert(whole.len() == 1 + dl + rest.len());
            assert(whole[0] == spec_ctrl_word(dl as u16, rl as u16));
            let vals = whole.subrange(1, 1 + dl) + Seq::new(rl as nat, |k: int| whole[dl]);
            assert(whole.subrange(1, 1 + dl) =~= input.subrange(ds, ds + dl));
            assert(whole[dl] == input[ds + dl - 1]);
            assert(vals =~= input.subrange(ds, i));
            let out1 = spec_splice(out, ds, vals);
            assert(spec_decode_from(whole, 0, out, ds)
                == spec_decode_from(whole, 1 + dl, out1, ds + dl + rl));
            assert(whole.subrange(1 + dl, whole.len() as int) =~= rest);
            assert(rest.subrange(0, rest.len() as int) =~= rest);
            lemma_decode_shift(whole, 1 + dl, rest, 0, out1, i);
            lemma_records_ok_shift(whole, 1 + dl, rest, 0, i, out.len() as int);
            lemma_comp_decode(input, i + 1, i, 1, 0, out1);
            lemma_splice_adjacent(out, ds, vals, input.subrange(i, input.len() as int));
            assert(vals + input.subrange(i, input.len() as int)
                =~= input.subrange(ds, input.len() as int));
            assert(whole[0] as int % 256 == dl && whole[0] as int / 256 == rl);
            assert(spec_records_ok(whole, 1 + dl, ds + dl + rl, out.len() as int));
            assert(0 + dl < whole.len() && ds + dl + rl <= out.len());
            assert(spec_records_ok(whole, 0, ds, out.len() as int));
        } else {
            assert forall|k: int| ds + (dl + rl + 1) <= k < i + 1 implies
                #[trigger] input[k] == input[ds + (dl + rl + 1) - 1] by {}
            lemma_comp_decode(input, i + 1, ds, dl + rl + 1, 0, out);
        }
    }
}

/// Round-trip law: decompressing a compressed pixel sequence into a buffer
/// of the declared length reproduces the sequence exactly, and the
/// compressed block is well formed for that buffer.
pub proof fn lemma_compress_roundtrip(input: Seq<u16>, out: Seq<u16>)
    requires
        input.len() <= MAX_PIXELS,
        out.len() == input.len(),
    ensures
        spec_block_ok(spec_compress(input), out.len() as int),
        spec_decompress(spec_compress(input), out) == input,
{
    let c = spec_compress(input);
    if input.len() == 0 {
        assert(spec_decode_from(c, 1, out, 0) == (out, 0int));
        assert(out =~= input);
    } else {
        let comp = spec_comp_from(input, 1, 0, 1, 0);
        assert(c == seq![input.len() as u16] + comp);
        assert(c.subrange(1, c.len() as int) =~= comp);
        assert(comp.subrange(0, comp.len() as int) =~= comp);
        lemma_decode_shift(c, 1, comp, 0, out, 0);
        lemma_records_ok_shift(c, 1, comp, 0, 0, out.len() as int);
        lemma_comp_decode(input, 1, 0, 1, 0, out);
        assert(spec_splice(out, 0, input.subrange(0, input.len() as int)) =~= input);
    }
}

/// Header law: the size a compressed block declares is exactly the
/// pixel count it was built from.
pub proof fn lemma_compress_header(input: Seq<u16>)
    requires
        input.len() <= MAX_PIXELS,
    ensures
        spec_decompressed_size(spec_compress(input)) == input.len(),
{
    if input.len() > 0 {
        assert(spec_compress(input)[0] == input.len() as u16);
    }
}

/// Size law: a compressed block never exceeds twice the pixel count plus
/// the header word.
pub proof fn lemma_compress_bound(input: Seq<u16>)
    requires
        input.len() <= MAX_PIXELS,
    ensures
        spec_compress(input).len() <= 2 * input.len() + 1,
{
    if input.len() > 0 {
        lemma_comp_from_len(input, 1, 0, 1, 0);
    }
}

/// Decompress `input` into `output`, whose length must cover every record.
/// Pixels the records skip are left as they stand.
#[verifier::loop_isolation(false)]
pub fn decompress(input: &Vec<u16>, output: &mut Vec<u16>)
    requires
        spec_block_ok(input@, old(output)@.len() as int),
    ensures
        final(output)@ == spec_decompress(input@, old(output)@),
        final(output)@.len() == old(output)@.len(),
{
    let ghost out0 = output@;
    let mut input_index: usize = 1;
    let mut output_index: usize = 0;
    let input_length = input.len();
    let output_length = output.len();

    while input_index < input_length
        invariant
            1 <= input_index,
            0 <= output_index <= output@.len(),
            output@.len() == out0.len(),
            output_length == output@.len(),
            spec_records_ok(input@, input_index as int, output_index as int, output@.len() as int),
            spec_decode_from(input@, input_index as int, output@, output_index as int)
                == spec_decode_from(input@, 1, out0, 0),
        decreases input_length - input_index,
    {
        let ghost rec_i = input_index as int;
        let ghost rec_out = output@;
        let ghost rec_pos = output_index as int;
        let ctrl = input[input_index];
        input_index += 1;
        let data_length = ctrl & 0xff;
        let run_length = ctrl >> 8;
        proof {
            assert(ctrl & 0xff == ctrl % 256 && ctrl >> 8 == ctrl / 256) by (bit_vector);
        }
        let ghost dl = data_length as int;
        let ghost rl = run_length as int;

        if data_length == 0 {
            proof {
                assert(rec_pos + rl <= output@.len());
            }
            output_index += run_length as usize;
        } else {
            proof {
                assert(rec_i + dl < input@.len());
                assert(rec_pos + dl + rl <= output@.len());
            }
            let ghost lits = input@.subrange(rec_i + 1, rec_i + 1 + dl);
            let mut t: usize = 0;
            while t < data_length as usize
                invariant
                    0 <= t <= dl,
                    input_index == rec_i + 1 + t,
                    output_index == rec_pos + t,
                    output@.len() == rec_out.len(),
                    output_length == output@.len(),
                    output@ == spec_splice(rec_out, rec_pos, lits.subrange(0, t as int)),
                decreases data_length as usize - t,
            {
                let v = input[input_index];
                proof {
                    lemma_splice_push(rec_out, rec_pos, lits.subrange(0, t as int), v);
                    assert(lits.subrange(0, t as int).push(v) =~= lits.subrange(0, t as int + 1));
                }
                output.set(output_index, v);
                output_index += 1;
                input_index += 1;
                t += 1;
            }
            proof {
                assert(lits.subrange(0, dl) =~= lits);
            }

            let last = input[input_index - 1];
            let mut r: usize = 0;
            while r < run_length as usize
                invariant
                    0 <= r <= rl,
                    input_index == rec_i + 1 + dl,
                    output_index == rec_pos + dl + r,
                    output@.len() == rec_out.len(),
                    output_length == output@.len(),
                    output@ == spec_splice(rec_out, rec_pos,
                        lits + Seq::new(r as nat, |k: int| input@[rec_i + dl])),
                decreases run_length as usize - r,
            {
                proof {
                    let vals_r = lits + Seq::new(r as nat, |k: int| input@[rec_i + dl]);
                    lemma_splice_push(rec_out, rec_pos, vals_r, last);
                    assert(vals_r.push(last)
                        =~= lits + Seq::new((r + 1) as nat, |k: int| input@[rec_i + dl]));
                }
                output.set(output_index, last);
                output_index += 1;
                r += 1;
            }
            proof {
                let vals = lits + Seq::new(rl as nat, |k: int| input@[rec_i + dl]);
                if rl == 0 {
                    assert(output@ == spec_splice(rec_out, rec_pos,
                        lits + Seq::new(0nat, |k: int| input@[rec_i + dl])));
                }
                assert(output@ == spec_splice(rec_out, rec_pos, vals));
                assert(spec_decode_from(input@, rec_i, rec_out, rec_pos)
                    == spec_decode_from(input@, rec_i + 1 + dl, output@, rec_pos + dl + rl));
            }
        }
    }
}

/// Write one record (control word, then the literals) at `oi`.
#[verifier::loop_isolation(false)]
fn emit_record(output: &mut Vec<u16>, oi: usize, input: &Vec<u16>, ds: usize, dl: u8, rl: u8) -> (new_oi: usize)
    requires
        1 <= dl as int,
        ds + dl as int <= input@.len(),
        oi + 1 + dl as int <= old(output)@.len(),
    ensures
        new_oi == oi + 1 + dl as int,
        final(output)@.len() == old(output)@.len(),
        final(output)@ == spec_splice(old(output)@, oi as int,
            seq![spec_ctrl_word(dl as u16, rl as u16)]
                + input@.subrange(ds as int, ds + dl as int)),
{
    let ghost out0 = output@;
    let ghost rec = seq![spec_ctrl_word(dl as u16, rl as u16)]
        + input@.subrange(ds as int, ds + dl as int);
    let input_length = input.len();
    let output_length = output.len();
    let c = ctrl_word(dl, rl);
    proof {
        assert(spec_splice(out0, oi as int, rec.subrange(0, 0)) =~= out0);
        lemma_splice_push(out0, oi as int, rec.subrange(0, 0), c);
        assert(rec.subrange(0, 0).push(c) =~= rec.subrange(0, 1));
    }
    output.set(oi, c);
    let mut t: usize = 0;
    while t < dl as usize
        invariant
            0 <= t <= dl as int,
            output@.len() == out0.len(),
            output_length == output@.len(),
            output@ == spec_splice(out0, oi as int, rec.subrange(0, 1 + t)),
        decreases dl as usize - t,
    {
        let v = input[ds + t];
        proof {
            lemma_splice_push(out0, oi as int, rec.subrange(0, 1 + t), v);
            assert(rec.subrange(0, 1 + t).push(v) =~= rec.subrange(0, 2 + t));
        }
        output.set(oi + 1 + t, v);
        t += 1;
    }
    proof {
        assert(rec.subrange(0, rec.len() as int) =~= rec);
    }
    oi + 1 + dl as usize
}

/// Compress `input` into `output`, returning how many words were written.
/// The buffer must be able to take the worst case, two words per pixel and
/// a header. The result is exactly the greedy encoding `spec_compress`.
#[verifier::loop_isolation(false)]
pub fn compress(input: &Vec<u16>, output: &mut Vec<u16>) -> (r: usize)
    requires
        input@.len() <= MAX_PIXELS as int,
        old(output)@.len() >= 2 * input@.len() + 1,
    ensures
        r == spec_compress(input@).len(),
        r <= 2 * input@.len() + 1,
        final(output)@.len() == old(output)@.len(),
        final(output)@.subrange(0, r as int) == spec_compress(input@),
        final(output)@.subrange(r as int, final(output)@.len() as int)
            == old(output)@.subrange(r as int, old(output)@.len() as int),
{
    let ghost out0 = output@;
    let ghost target = spec_compress(input@);
    proof {
        lemma_compress_bound(input@);
    }
    let input_length = input.len();
    let output_length = output.len();

    proof {
        assert(spec_splice(out0, 0, target.subrange(0, 0)) =~= out0);
        lemma_splice_push(out0, 0, target.subrange(0, 0), (input_length as u16));
        assert(target[0] == input_length as u16);
        assert(target.subrange(0, 0).push(input_length as u16) =~= target.subrange(0, 1));
    }
    output.set(0, input_length as u16);
    let mut output_index: usize = 1;

    if input_length == 0 {
        proof {
            assert(target =~= target.subrange(0, 1));
            assert(final(output)@.subrange(0, 1) =~= target);
            assert(final(output)@.subrange(1, final(output)@.len() as int)
                =~= out0.subrange(1, out0.len() as int));
        }
        return 1;
    }

    let mut input_index: usize = 1;
    let mut data_start_index: usize = 0;
    let mut data_length: u8 = 1;
    let mut run_length: u8 = 0;
    let mut last_value: u16 = input[0];

    proof {
        assert(target == target.subrange(0, 1) + spec_comp_from(input@, 1, 0, 1, 0)) by {
            assert(target.subrange(0, 1) =~= seq![input@.len() as u16]);
        }
    }

    while input_index < input_length
        invariant
            1 <= input_index <= input_length,
            1 <= data_length as int <= 255,
            0 <= run_length as int <= 255,
            data_start_index as int + data_length as int + run_length as int == input_index as int,
            last_value == input@[data_start_index as int + data_length as int - 1],
            forall|k: int| data_start_index as int + data_length as int <= k < input_index as int
                ==> #[trigger] input@[k] == input@[data_start_index as int + data_length as int - 1],
            1 <= output_index,
            target == target.subrange(0, output_index as int)
                + spec_comp_from(input@, input_index as int, data_start_index as int,
                    data_length as int, run_length as int),
            target.len() == output_index as int
                + spec_comp_from(input@, input_index as int, data_start_index as int,
                    data_length as int, run_length as int).len(),
            output@.len() == out0.len(),
            output_length == output@.len(),
            output@ == spec_splice(out0, 0, target.subrange(0, output_index as int)),
        decreases input_length - input_index,
    {
        let ghost ii0 = input_index as int;
        let ghost ds0 = data_start_index as int;
        let ghost dl0 = data_length as int;
        let ghost rl0 = run_length as int;
        let value = input[input_index];
        input_index += 1;

        if value == last_value && run_length < 255 {
            run_length += 1;
        } else {
            if run_length >= 3 || data_length as u16 + run_length as u16 + 1 > 255 {
                let ghost rec = seq![spec_ctrl_word(data_length as u16, run_length as u16)]
                    + input@.subrange(ds0, ds0 + dl0);
                let ghost rest = spec_comp_from(input@, ii0 + 1, ii0, 1, 0);
                proof {
                    assert(spec_comp_from(input@, ii0, ds0, dl0, rl0) == rec + rest);
                    lemma_comp_from_len(input@, ii0 + 1, ii0, 1, 0);
                    assert(target.len() <= out0.len());
                    assert(output_index as int + 1 + dl0 <= target.len());
                }
                let ghost oi0 = output_index as int;
                let ghost written = target.subrange(0, oi0);
                output_index = emit_record(output, output_index, input,
                    data_start_index, data_length, run_length);
                proof {
                    lemma_splice_adjacent(out0, 0, written, rec);
                    assert(written + rec =~= target.subrange(0, oi0 + rec.len()));
                    assert(target == target.subrange(0, output_index as int) + rest) by {
                        assert(target =~= target.subrange(0, oi0 + rec.len()) + rest);
                    }
                }
                data_start_index = input_index - 1;
                data_length = 1;
                run_length = 0;
            } else {
                data_length = data_length + run_length + 1;
                run_length = 0;
            }
            last_value = value;
        }
    }

    let ghost rec = seq![spec_ctrl_word(data_length as u16, run_length as u16)]
        + input@.subrange(data_start_index as int, data_start_index as int + data_length as int);
    proof {
        assert(spec_comp_from(input@, input_index as int, data_start_index as int,
            data_length as int, run_length as int) == rec);
        assert(target.len() <= out0.len());
        assert(output_index as int + 1 + data_length as int <= target.len());
    }
    let ghost oi0 = output_index as int;
    let ghost written = target.subrange(0, oi0);
    output_index = emit_record(output, output_index, input,
        data_start_index, data_length, run_length);
    proof {
        lemma_splice_adjacent(out0, 0, written, rec);
        assert(written + rec =~= target.subrange(0, oi0 + rec.len()));
        assert(output_index as int == target.len());
        assert(target.subrange(0, target.len() as int) =~= target);
        assert(final(output)@.subrange(0, output_index as int) =~= target);
        assert(final(output)@.subrange(output_index as int, final(output)@.len() as int)
            =~= out0.subrange(output_index as int, out0.len() as int));
    }
    output_index
}

} // verus!
