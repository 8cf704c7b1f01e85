//! The binary wire format of a persisted model.
//!
//! All integers are little-endian. The layout is, in order: `rows` and
//! `cols` (`u32` each) followed by `rows * cols` 32-bit cells of the
//! log-likelihood table; a `u32` count followed by that many 32-bit cells
//! of the log-prior vector; a `u32` count followed by that many `u16`
//! transition-table entries; a `u32` count of class names, each a `u32`
//! byte length followed by that many UTF-8 bytes; and a `u32` count of
//! feature-emission entries, each a `u32` state key (which must fit 16
//! bits), a `u32` value count, and that many `i32` feature indices.
//! Nothing may follow the last field. Float cells are kept as their raw
//! bit patterns.

use vstd::prelude::*;
use vstd::utf8::decode_utf8;
use std::collections::HashMap;
use vstd::utf8::valid_utf8;

verus! {

broadcast use vstd::std_specs::hash::group_hash_axioms;

/// Why a model blob was rejected.
#[derive(Debug, Clone, Copy, PartialEq, Eq, Structural)]
pub enum DecodeError {
    /// The stream ended before a declared field was complete.
    Truncated,
    /// A class name is not valid UTF-8.
    BadUtf8,
    /// A feature-emission key does not fit a 16-bit state id.
    StateKeyTooLarge,
    /// The tables disagree on the class count, or it is zero.
    BadDimensions,
    /// Bytes remain after the last field.
    TrailingBytes,
}

/// The 16-bit little-endian value at offset `p`.
pub open spec fn spec_le16(b: Seq<u8>, p: int) -> u16
    recommends
        0 <= p,
        p + 2 <= b.len(),
{
    (b[p] + b[p + 1] * 0x100) as u16
}

/// The 32-bit little-endian value at offset `p`.
pub open spec fn spec_le32(b: Seq<u8>, p: int) -> u32
    recommends
        0 <= p,
        p + 4 <= b.len(),
{
    (b[p] + b[p + 1] * 0x100 + b[p + 2] * 0x1_0000 + b[p + 3] * 0x100_0000) as u32
}

/// The 32-bit little-endian value at offset `p`, reinterpreted as signed.
pub open spec fn spec_le_i32(b: Seq<u8>, p: int) -> i32 {
    spec_le32(b, p) as i32
}

/// Read one `u32` at offset `p`; the stream must hold 4 more bytes.
pub open spec fn spec_read_u32(b: Seq<u8>, p: int) -> Result<(u32, int), DecodeError> {
    if p + 4 <= b.len() {
        Ok((spec_le32(b, p), p + 4))
    } else {
        Err(DecodeError::Truncated)
    }
}

/// Read `n` 32-bit cells starting at offset `p`.
pub open spec fn spec_read_u32_seq(b: Seq<u8>, p: int, n: nat) -> Result<
    (Seq<u32>, int),
    DecodeError,
> {
    if p + 4 * n <= b.len() {
        Ok((Seq::new(n, |i: int| spec_le32(b, p + 4 * i)), p + 4 * n))
    } else {
        Err(DecodeError::Truncated)
    }
}

/// Read `n` 16-bit cells starting at offset `p`.
pub open spec fn spec_read_u16_seq(b: Seq<u8>, p: int, n: nat) -> Result<
    (Seq<u16>, int),
    DecodeError,
> {
    if p + 2 * n <= b.len() {
        Ok((Seq::new(n, |i: int| spec_le16(b, p + 2 * i)), p + 2 * n))
    } else {
        Err(DecodeError::Truncated)
    }
}

/// Read `n` signed 32-bit cells starting at offset `p`.
pub open spec fn spec_read_i32_seq(b: Seq<u8>, p: int, n: nat) -> Result<
    (Seq<i32>, int),
    DecodeError,
> {
    if p + 4 * n <= b.len() {
        Ok((Seq::new(n, |i: int| spec_le_i32(b, p + 4 * i)), p + 4 * n))
    } else {
        Err(DecodeError::Truncated)
    }
}

/// Read `rows` rows of `cols` 32-bit cells each, row-major, at offset `p`.
pub open spec fn spec_read_rows(b: Seq<u8>, p: int, rows: nat, cols: nat) -> Result<
    (Seq<Seq<u32>>, int),
    DecodeError,
> {
    if p + 4 * ((rows * cols) as int) <= b.len() {
        Ok(
            (
                Seq::new(
                    rows,
                    |r: int| Seq::new(cols, |c: int| spec_le32(b, p + 4 * (r * cols + c))),
                ),
                p + 4 * ((rows * cols) as int),
            ),
        )
    } else {
        Err(DecodeError::Truncated)
    }
}

/// Read one length-prefixed UTF-8 string at offset `p`.
pub open spec fn spec_read_string(b: Seq<u8>, p: int) -> Result<(Seq<char>, int), DecodeError> {
    match spec_read_u32(b, p) {
        Err(e) => Err(e),
        Ok((n, p1)) => if p1 + n > b.len() {
            Err(DecodeError::Truncated)
        } else {
            let bs = b.subrange(p1, p1 + n);
            if valid_utf8(bs) {
                Ok((decode_utf8(bs), p1 + n))
            } else {
                Err(DecodeError::BadUtf8)
            }
        },
    }
}

/// Read `n` length-prefixed UTF-8 strings starting at offset `p`.
pub open spec fn spec_read_strings(b: Seq<u8>, p: int, n: nat) -> Result<
    (Seq<Seq<char>>, int),
    DecodeError,
>
    decreases n,
{
    if n == 0 {
        Ok((Seq::empty(), p))
    } else {
        match spec_read_string(b, p) {
            Err(e) => Err(e),
            Ok((s, q)) => match spec_read_strings(b, q, (n - 1) as nat) {
                Err(e) => Err(e),
                Ok((ss, q2)) => Ok((seq![s] + ss, q2)),
            },
        }
    }
}

/// Read one feature-emission entry at offset `p`: a state key that must
/// fit 16 bits, a value count, and that many signed 32-bit indices.
pub open spec fn spec_read_entry(b: Seq<u8>, p: int) -> Result<
    ((u16, Seq<i32>), int),
    DecodeError,
> {
    match spec_read_u32(b, p) {
        Err(e) => Err(e),
        Ok((key, p1)) => if key > 0xffff {
            Err(DecodeError::StateKeyTooLarge)
        } else {
            match spec_read_u32(b, p1) {
                Err(e) => Err(e),
                Ok((vl, p2)) => match spec_read_i32_seq(b, p2, vl as nat) {
                    Err(e) => Err(e),
                    Ok((vals, p3)) => Ok(((key as u16, vals), p3)),
                },
            }
        },
    }
}

/// Read `n` feature-emission entries starting at offset `p`.
pub open spec fn spec_read_entries(b: Seq<u8>, p: int, n: nat) -> Result<
    (Seq<(u16, Seq<i32>)>, int),
    DecodeError,
>
    decreases n,
{
    if n == 0 {
        Ok((Seq::empty(), p))
    } else {
        match spec_read_entry(b, p) {
            Err(e) => Err(e),
            Ok((entry, q)) => match spec_read_entries(b, q, (n - 1) as nat) {
                Err(e) => Err(e),
                Ok((es, q2)) => Ok((seq![entry] + es, q2)),
            },
        }
    }
}

/// The emission map described by an entry list: entries are installed in
/// order, a later entry for a state replacing an earlier one.
pub open spec fn entries_to_map(es: Seq<(u16, Seq<i32>)>) -> Map<u16, Seq<i32>>
    decreases es.len(),
{
    if es.len() == 0 {
        Map::empty()
    } else {
        entries_to_map(es.drop_last()).insert(es.last().0, es.last().1)
    }
}

/// Parse a whole model blob. The stages mirror the wire format: the
/// likelihood table with its two dimensions, the prior vector, the
/// transition table, the class list, and the emission entries. After all
/// fields, the class counts of the three tables must agree and be nonzero
/// (so the feature count, the table size divided by the class count, is
/// the row count), and no bytes may remain.
pub open spec fn spec_parse(b: Seq<u8>) -> Result<crate::model::ModelView, DecodeError> {
    match spec_read_u32(b, 0) {
        Err(e) => Err(e),
        Ok((rows, p1)) => match spec_read_u32(b, p1) {
            Err(e) => Err(e),
            Ok((cols, p2)) => match spec_read_rows(b, p2, rows as nat, cols as nat) {
                Err(e) => Err(e),
                Ok((ptc, p3)) => match spec_read_u32(b, p3) {
                    Err(e) => Err(e),
                    Ok((pc_len, p4)) => match spec_read_u32_seq(b, p4, pc_len as nat) {
                        Err(e) => Err(e),
                        Ok((pc, p5)) => match spec_read_u32(b, p5) {
                            Err(e) => Err(e),
                            Ok((tm_len, p6)) => match spec_read_u16_seq(b, p6, tm_len as nat) {
                                Err(e) => Err(e),
                                Ok((tm, p7)) => match spec_read_u32(b, p7) {
                                    Err(e) => Err(e),
                                    Ok((n_classes, p8)) => match spec_read_strings(
                                        b,
                                        p8,
                                        n_classes as nat,
                                    ) {
                                        Err(e) => Err(e),
                                        Ok((classes, p9)) => match spec_read_u32(b, p9) {
                                            Err(e) => Err(e),
                                            Ok((n_out, p10)) => match spec_read_entries(
                                                b,
                                                p10,
                                                n_out as nat,
                                            ) {
                                                Err(e) => Err(e),
                                                Ok((entries, p11)) => if pc_len == 0 || cols
                                                    != pc_len || n_classes != pc_len {
                                                    Err(DecodeError::BadDimensions)
                                                } else if p11 != b.len() {
                                                    Err(DecodeError::TrailingBytes)
                                                } else {
                                                    Ok(
                                                        crate::model::ModelView {
                                                            tk_output: entries_to_map(entries),
                                                            numfeats: rows as nat,
                                                            tk_nextmove: tm,
                                                            norm_probs: false,
                                                            canon: crate::model::DataView {
                                                                classes: classes,
                                                                ptc: ptc,
                                                                pc: pc,
                                                            },
                                                            active: None,
                                                        },
                                                    )
                                                },
                                            },
                                        },
                                    },
                                },
                            },
                        },
                    },
                },
            },
        },
    }
}

/// Every string list a successful read yields has the declared length.
pub proof fn lemma_read_strings_len(b: Seq<u8>, p: int, n: nat)
    ensures
        spec_read_strings(b, p, n) matches Ok(r) ==> r.0.len() == n,
    decreases n,
{
    if n > 0 {
        if let Ok((s, q)) = spec_read_string(b, p) {
            lemma_read_strings_len(b, q, (n - 1) as nat);
        }
    }
}

/// One `u32`, little-endian.
pub fn read_u32(bytes: &Vec<u8>, pos: &mut usize) -> (r: Result<u32, DecodeError>)
    requires
        *old(pos) <= bytes@.len(),
    ensures
        match spec_read_u32(bytes@, *old(pos) as int) {
            Ok((v, q)) => r == Ok::<u32, DecodeError>(v) && *final(pos) == q && q
                <= bytes@.len(),
            Err(e) => r == Err::<u32, DecodeError>(e) && *final(pos) == *old(pos),
        },
{
    let p = *pos;
    if bytes.len() - p >= 4 {
        let v = (bytes[p] as u32) + (bytes[p + 1] as u32) * 0x100 + (bytes[p + 2] as u32)
            * 0x1_0000 + (bytes[p + 3] as u32) * 0x100_0000;
        *pos = p + 4;
        Ok(v)
    } else {
        Err(DecodeError::Truncated)
    }
}

/// `len` 32-bit cells, little-endian, kept as raw bit patterns.
pub fn read_u32_vec(bytes: &Vec<u8>, pos: &mut usize, len: usize) -> (r: Result<
    Vec<u32>,
    DecodeError,
>)
    requires
        *old(pos) <= bytes@.len(),
    ensures
        match spec_read_u32_seq(bytes@, *old(pos) as int, len as nat) {
            Ok((s, q)) => r matches Ok(v) && v@ == s && *final(pos) == q && q <= bytes@.len(),
            Err(e) => r == Err::<Vec<u32>, DecodeError>(e) && *final(pos) == *old(pos),
        },
{
    let p = *pos;
    if (bytes.len() - p) / 4 < len {
        return Err(DecodeError::Truncated);
    }
    let mut v: Vec<u32> = Vec::new();
    let mut i: usize = 0;
    while i < len
        invariant
            p + 4 * len <= bytes@.len(),
            bytes@.len() <= usize::MAX,
            i <= len,
            v@.len() == i,
            forall|j: int| 0 <= j < i ==> v@[j] == spec_le32(bytes@, p + 4 * j),
        decreases len - i,
    {
        let off = p + 4 * i;
        let cell = (bytes[off] as u32) + (bytes[off + 1] as u32) * 0x100 + (bytes[off + 2] as u32)
            * 0x1_0000 + (bytes[off + 3] as u32) * 0x100_0000;
        v.push(cell);
        i = i + 1;
    }
    *pos = p + 4 * len;
    proof {
        assert(v@ =~= Seq::new(len as nat, |j: int| spec_le32(bytes@, p + 4 * j)));
    }
    Ok(v)
}

/// `len` `u16` cells, little-endian.
pub fn read_u16_vec(bytes: &Vec<u8>, pos: &mut usize, len: usize) -> (r: Result<
    Vec<u16>,
    DecodeError,
>)
    requires
        *old(pos) <= bytes@.len(),
    ensures
        match spec_read_u16_seq(bytes@, *old(pos) as int, len as nat) {
            Ok((s, q)) => r matches Ok(v) && v@ == s && *final(pos) == q && q <= bytes@.len(),
            Err(e) => r == Err::<Vec<u16>, DecodeError>(e) && *final(pos) == *old(pos),
        },
{
    let p = *pos;
    if (bytes.len() - p) / 2 < len {
        return Err(DecodeError::Truncated);
    }
    let mut v: Vec<u16> = Vec::new();
    let mut i: usize = 0;
    while i < len
        invariant
            p + 2 * len <= bytes@.len(),
            bytes@.len() <= usize::MAX,
            i <= len,
            v@.len() == i,
            forall|j: int| 0 <= j < i ==> v@[j] == spec_le16(bytes@, p + 2 * j),
        decreases len - i,
    {
        let off = p + 2 * i;
        let cell = (bytes[off] as u16) + (bytes[off + 1] as u16) * 0x100;
        v.push(cell);
        i = i + 1;
    }
    *pos = p + 2 * len;
    proof {
        assert(v@ =~= Seq::new(len as nat, |j: int| spec_le16(bytes@, p + 2 * j)));
    }
    Ok(v)
}

/// `len` signed 32-bit cells, little-endian.
pub fn read_i32_vec(bytes: &Vec<u8>, pos: &mut usize, len: usize) -> (r: Result<
    Vec<i32>,
    DecodeError,
>)
    requires
        *old(pos) <= bytes@.len(),
    ensures
        match spec_read_i32_seq(bytes@, *old(pos) as int, len as nat) {
            Ok((s, q)) => r matches Ok(v) && v@ == s && *final(pos) == q && q <= bytes@.len(),
            Err(e) => r == Err::<Vec<i32>, DecodeError>(e) && *final(pos) == *old(pos),
        },
{
    let p = *pos;
    if (bytes.len() - p) / 4 < len {
        return Err(DecodeError::Truncated);
    }
    let mut v: Vec<i32> = Vec::new();
    let mut i: usize = 0;
    while i < len
        invariant
            p + 4 * len <= bytes@.len(),
            bytes@.len() <= usize::MAX,
            i <= len,
            v@.len() == i,
            forall|j: int| 0 <= j < i ==> v@[j] == spec_le_i32(bytes@, p + 4 * j),
        decreases len - i,
    {
        let off = p + 4 * i;
        let cell = (bytes[off] as u32) + (bytes[off + 1] as u32) * 0x100 + (bytes[off + 2] as u32)
            * 0x1_0000 + (bytes[off + 3] as u32) * 0x100_0000;
        v.push(#[verifier::truncate] (cell as i32));
        i = i + 1;
    }
    *pos = p + 4 * len;
    proof {
        assert(v@ =~= Seq::new(len as nat, |j: int| spec_le_i32(bytes@, p + 4 * j)));
    }
    Ok(v)
}

/// Relies on `String::from_utf8`: it succeeds exactly on valid UTF-8
/// input, and the returned string's characters are the UTF-8 decoding of
/// the bytes.
#[verifier::external_body]
fn string_from_utf8(bytes: Vec<u8>) -> (r: Option<String>)
    ensures
        r is Some <==> valid_utf8(bytes@),
        r matches Some(s) ==> s@ == decode_utf8(bytes@),
{
    String::from_utf8(bytes).ok()
}

/// The likelihood table: `rows` rows of `cols` 32-bit cells, row-major.
#[verifier::loop_isolation(false)]
pub(crate) fn read_ptc_rows(bytes: &Vec<u8>, pos: &mut usize, rows32: u32, cols32: u32) -> (r:
    Result<Vec<Vec<u32>>, DecodeError>)
    requires
        *old(pos) <= bytes@.len(),
    ensures
        match spec_read_rows(bytes@, *old(pos) as int, rows32 as nat, cols32 as nat) {
            Ok(o) => r matches Ok(v) && v.deep_view() == o.0 && v@.len() == rows32 && (forall|
                rr: int,
            |
                0 <= rr < v@.len() ==> (#[trigger] v@[rr])@.len() == cols32) && *final(pos) == o.1
                && o.1 <= bytes@.len(),
            Err(e) => r matches Err(a) && a == e && *final(pos) == *old(pos),
        },
{
    let rows = rows32 as usize;
    let cols = cols32 as usize;
    let ghost p0 = *pos as int;
    proof {
        assert((rows32 as int) * (cols32 as int) <= 0xffff_ffff * 0xffff_ffff) by (nonlinear_arith)
            requires
                rows32 as int <= 0xffff_ffff,
                cols32 as int <= 0xffff_ffff,
        ;
        assert(((rows32 as u128) * (cols32 as u128)) as int == (rows32 as int) * (cols32 as int))
            by (nonlinear_arith)
            requires
                rows32 as int <= 0xffff_ffff,
                cols32 as int <= 0xffff_ffff,
        ;
    }
    let cells: u128 = (rows32 as u128) * (cols32 as u128);
    let rem = bytes.len() - *pos;
    if (rem as u128) / 4 < cells {
        return Err(DecodeError::Truncated);
    }
    proof {
        assert(p0 + 4 * (((rows32 as nat) * (cols32 as nat)) as int) <= bytes@.len());
    }
    let mut nb_ptc: Vec<Vec<u32>> = Vec::new();
    let mut ri: usize = 0;
    while ri < rows
        invariant
            ri <= rows,
            *pos as int == p0 + 4 * ((ri as int) * (cols as int)),
            *pos <= bytes@.len(),
            nb_ptc@.len() == ri,
            forall|rr: int|
                0 <= rr < ri ==> #[trigger] nb_ptc@[rr]@ == Seq::new(
                    cols as nat,
                    |c: int| spec_le32(bytes@, p0 + 4 * (rr * (cols as int) + c)),
                ),
        decreases rows - ri,
    {
        proof {
            assert(((ri as int) + 1) * (cols as int) == (ri as int) * (cols as int) + (cols
                as int)) by (nonlinear_arith);
            assert(((ri as int) + 1) * (cols as int) <= (rows as int) * (cols as int))
                by (nonlinear_arith)
                requires
                    (ri as int) + 1 <= rows as int,
                    0 <= cols as int,
            ;
        }
        let row = match read_u32_vec(bytes, pos, cols) {
            Ok(v) => v,
            Err(e) => {
                proof {
                    assert(false);
                }
                return Err(e);
            },
        };
        let ghost rowv = row@;
        nb_ptc.push(row);
        ri = ri + 1;
        proof {
            assert(rowv =~= Seq::new(
                cols as nat,
                |c: int| spec_le32(bytes@, p0 + 4 * (((ri - 1) as int) * (cols as int) + c)),
            ));
        }
    }
    proof {
        let o = spec_read_rows(bytes@, p0, rows32 as nat, cols32 as nat)->Ok_0;
        assert(nb_ptc.deep_view() =~~= o.0);
    }
    Ok(nb_ptc)
}

/// The class list: `n` length-prefixed UTF-8 strings.
#[verifier::loop_isolation(false)]
pub(crate) fn read_classes(bytes: &Vec<u8>, pos: &mut usize, n: usize) -> (r: Result<
    Vec<String>,
    DecodeError,
>)
    requires
        *old(pos) <= bytes@.len(),
    ensures
        match spec_read_strings(bytes@, *old(pos) as int, n as nat) {
            Ok(o) => r matches Ok(v) && v.deep_view() == o.0 && *final(pos) == o.1 && o.1
                <= bytes@.len(),
            Err(e) => r matches Err(a) && a == e,
        },
{
    let ghost p0 = *pos as int;
    let mut out: Vec<String> = Vec::new();
    let mut ci: usize = 0;
    while ci < n
        invariant
            ci <= n,
            *pos <= bytes@.len(),
            out@.len() == ci,
            match spec_read_strings(bytes@, *pos as int, (n - ci) as nat) {
                Ok(o) => spec_read_strings(bytes@, p0, n as nat) == Ok::<
                    (Seq<Seq<char>>, int),
                    DecodeError,
                >((out.deep_view() + o.0, o.1)),
                Err(e) => spec_read_strings(bytes@, p0, n as nat) == Err::<
                    (Seq<Seq<char>>, int),
                    DecodeError,
                >(e),
            },
        decreases n - ci,
    {
        let ghost dv_before = out.deep_view();
        let ghost pos_before = *pos as int;
        let s = match read_string(bytes, pos) {
            Ok(s) => s,
            Err(e) => {
                return Err(e);
            },
        };
        let ghost sv = s@;
        out.push(s);
        ci = ci + 1;
        proof {
            assert(out.deep_view() =~~= dv_before + seq![sv]);
            assert(spec_read_string(bytes@, pos_before) == Ok::<(Seq<char>, int), DecodeError>(
                (sv, *pos as int),
            ));
            let inner = spec_read_strings(bytes@, *pos as int, (n - ci) as nat);
            if inner is Ok {
                let ss = inner->Ok_0.0;
                assert((dv_before + seq![sv]) + ss =~= dv_before + (seq![sv] + ss));
            }
        }
    }
    proof {
        assert(out.deep_view() + Seq::<Seq<char>>::empty() =~= out.deep_view());
    }
    Ok(out)
}

/// The feature-emission table: `n` entries installed in order, a later
/// entry for a state replacing an earlier one.
#[verifier::loop_isolation(false)]
pub(crate) fn read_outputs(bytes: &Vec<u8>, pos: &mut usize, n: usize) -> (r: Result<
    HashMap<u16, Vec<i32>>,
    DecodeError,
>)
    requires
        *old(pos) <= bytes@.len(),
    ensures
        match spec_read_entries(bytes@, *old(pos) as int, n as nat) {
            Ok(o) => r matches Ok(hm) && crate::model::output_view(hm@) == entries_to_map(o.0)
                && *final(pos) == o.1 && o.1 <= bytes@.len(),
            Err(e) => r matches Err(a) && a == e,
        },
{
    let ghost p0 = *pos as int;
    let mut hm: HashMap<u16, Vec<i32>> = HashMap::new();
    let ghost mut acc: Seq<(u16, Seq<i32>)> = Seq::empty();
    let mut ei: usize = 0;
    while ei < n
        invariant
            ei <= n,
            *pos <= bytes@.len(),
            crate::model::output_view(hm@) == entries_to_map(acc),
            match spec_read_entries(bytes@, *pos as int, (n - ei) as nat) {
                Ok(o) => spec_read_entries(bytes@, p0, n as nat) == Ok::<
                    (Seq<(u16, Seq<i32>)>, int),
                    DecodeError,
                >((acc + o.0, o.1)),
                Err(e) => spec_read_entries(bytes@, p0, n as nat) == Err::<
                    (Seq<(u16, Seq<i32>)>, int),
                    DecodeError,
                >(e),
            },
        decreases n - ei,
    {
        let ghost pos_before = *pos as int;
        let key32 = match read_u32(bytes, pos) {
            Ok(v) => v,
            Err(e) => {
                proof {
                    assert(spec_read_entry(bytes@, pos_before) is Err);
                }
                return Err(e);
            },
        };
        if key32 > 0xffff {
            proof {
                assert(spec_read_entry(bytes@, pos_before) == Err::<
                    ((u16, Seq<i32>), int),
                    DecodeError,
                >(DecodeError::StateKeyTooLarge));
            }
            return Err(DecodeError::StateKeyTooLarge);
        }
        let vl32 = match read_u32(bytes, pos) {
            Ok(v) => v,
            Err(e) => {
                return Err(e);
            },
        };
        let vals = match read_i32_vec(bytes, pos, vl32 as usize) {
            Ok(v) => v,
            Err(e) => {
                return Err(e);
            },
        };
        let key = key32 as u16;
        let ghost valsv = vals@;
        let ghost map_before = crate::model::output_view(hm@);
        hm.insert(key, vals);
        ei = ei + 1;
        proof {
            assert(spec_read_entry(bytes@, pos_before) == Ok::<((u16, Seq<i32>), int), DecodeError>(
                ((key, valsv), *pos as int),
            ));
            assert(crate::model::output_view(hm@) =~= map_before.insert(key, valsv));
            let acc2 = acc.push((key, valsv));
            assert(acc2.drop_last() =~= acc);
            assert(entries_to_map(acc2) == entries_to_map(acc).insert(key, valsv));
            acc = acc2;
            let inner = spec_read_entries(bytes@, *pos as int, (n - ei) as nat);
            if inner is Ok {
                let es = inner->Ok_0.0;
                assert((acc.drop_last() + (seq![(key, valsv)] + es)) =~= (acc + es));
            }
        }
    }
    proof {
        assert(acc + Seq::<(u16, Seq<i32>)>::empty() =~= acc);
    }
    Ok(hm)
}

/// One length-prefixed UTF-8 string.
pub fn read_string(bytes: &Vec<u8>, pos: &mut usize) -> (r: Result<String, DecodeError>)
    requires
        *old(pos) <= bytes@.len(),
    ensures
        match spec_read_string(bytes@, *old(pos) as int) {
            Ok((cs, q)) => r matches Ok(s) && s@ == cs && *final(pos) == q && q <= bytes@.len(),
            Err(e) => r matches Err(a) && a == e,
        },
{
    let n32 = match read_u32(bytes, pos) {
        Ok(v) => v,
        Err(e) => {
            return Err(e);
        },
    };
    let n = n32 as usize;
    let p = *pos;
    if bytes.len() - p < n {
        return Err(DecodeError::Truncated);
    }
    let mut buf: Vec<u8> = Vec::new();
    let mut k: usize = 0;
    while k < n
        invariant
            p + n <= bytes@.len(),
            bytes@.len() <= usize::MAX,
            k <= n,
            buf@.len() == k,
            forall|j: int| 0 <= j < k ==> buf@[j] == bytes@[p + j],
        decreases n - k,
    {
        buf.push(bytes[p + k]);
        k = k + 1;
    }
    *pos = p + n;
    proof {
        assert(buf@ =~= bytes@.subrange(p as int, p + n));
    }
    match string_from_utf8(buf) {
        Some(s) => Ok(s),
        None => Err(DecodeError::BadUtf8),
    }
}

} // verus!
