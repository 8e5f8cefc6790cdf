use vstd::prelude::*;

use crate::error::MarkovError;
use crate::model::{
    entries_view, entries_wf, rows_valid, rows_wf, unique_keys, word_nonempty, MarkovModel,
    Transitions,
};
use crate::token::{Sym, Token};
use vstd::utf8::{decode_utf8, encode_utf8, encode_utf8_decode_utf8, encode_utf8_valid_utf8, valid_utf8};

verus! {

// The byte form of a table, all integers little-endian:
//   table  = u64 number of rows, then each row
//   row    = token, u64 number of successors, then each successor
//   succ   = token, u64 count (at most the largest u32)
//   token  = 0 (start marker) | 2 (end marker) | 1, u64 byte length, UTF-8 bytes (word)
// Nothing may follow the last row.

use crate::model::RowsView;

/// The eight little-endian bytes of `x`.
pub open spec fn le_bytes(x: u64) -> Seq<u8> {
    seq![
        x as u8,
        (x >> 8u64) as u8,
        (x >> 16u64) as u8,
        (x >> 24u64) as u8,
        (x >> 32u64) as u8,
        (x >> 40u64) as u8,
        (x >> 48u64) as u8,
        (x >> 56u64) as u8,
    ]
}

/// The integer whose little-endian bytes are these eight.
pub open spec fn le_value(b0: u8, b1: u8, b2: u8, b3: u8, b4: u8, b5: u8, b6: u8, b7: u8) -> u64 {
    (b0 as u64) | ((b1 as u64) << 8u64) | ((b2 as u64) << 16u64) | ((b3 as u64) << 24u64) | ((
    b4 as u64) << 32u64) | ((b5 as u64) << 40u64) | ((b6 as u64) << 48u64) | ((b7 as u64)
        << 56u64)
}

/// The integer stored at `pos` of `b`.
pub open spec fn u64_at(b: Seq<u8>, pos: int) -> u64 {
    le_value(b[pos], b[pos + 1], b[pos + 2], b[pos + 3], b[pos + 4], b[pos + 5], b[pos + 6], b[pos + 7])
}

proof fn lemma_le_round(x: u64)
    by (bit_vector)
    ensures
        ((x as u8) as u64) | ((((x >> 8u64) as u8) as u64) << 8u64) | ((((x >> 16u64) as u8) as u64)
            << 16u64) | ((((x >> 24u64) as u8) as u64) << 24u64) | ((((x >> 32u64) as u8) as u64)
            << 32u64) | ((((x >> 40u64) as u8) as u64) << 40u64) | ((((x >> 48u64) as u8) as u64)
            << 48u64) | ((((x >> 56u64) as u8) as u64) << 56u64) == x,
{
}

/// The bytes of one token.
pub open spec fn sym_bytes(t: Sym) -> Seq<u8> {
    match t {
        Sym::Start => seq![0u8],
        Sym::Word(w) => seq![1u8] + le_bytes(encode_utf8(w).len() as u64) + encode_utf8(w),
        Sym::End => seq![2u8],
    }
}

/// The bytes of one successor and its count.
pub open spec fn entry_bytes(e: (Sym, u32)) -> Seq<u8> {
    sym_bytes(e.0) + le_bytes(e.1 as u64)
}

/// The bytes of a list of successors.
pub open spec fn entries_bytes(es: Seq<(Sym, u32)>) -> Seq<u8>
    decreases es.len(),
{
    if es.len() == 0 {
        seq![]
    } else {
        entry_bytes(es[0]) + entries_bytes(es.skip(1))
    }
}

/// The bytes of one row.
pub open spec fn row_bytes(r: (Sym, Seq<(Sym, u32)>)) -> Seq<u8> {
    sym_bytes(r.0) + le_bytes(r.1.len() as u64) + entries_bytes(r.1)
}

/// The bytes of a list of rows.
pub open spec fn rows_bytes(rs: RowsView) -> Seq<u8>
    decreases rs.len(),
{
    if rs.len() == 0 {
        seq![]
    } else {
        row_bytes(rs[0]) + rows_bytes(rs.skip(1))
    }
}

/// The encoding of a table.
pub open spec fn model_bytes(rs: RowsView) -> Seq<u8> {
    le_bytes(rs.len() as u64) + rows_bytes(rs)
}

/// Every length that the encoding writes fits in a `u64`.
pub open spec fn sizes_fit(rs: RowsView) -> bool {
    &&& rs.len() <= u64::MAX
    &&& forall|i: int| 0 <= i < rs.len() ==> sym_fits(#[trigger] rs[i].0) && rs[i].1.len() <= u64::MAX
        && forall|j: int| 0 <= j < rs[i].1.len() ==> sym_fits(#[trigger] rs[i].1[j].0)
}

/// The byte length of a word fits in a `u64`.
pub open spec fn sym_fits(t: Sym) -> bool {
    t matches Sym::Word(w) ==> encode_utf8(w).len() <= u64::MAX
}

/// Reads a token at `pos`: its value and where it ends.
pub open spec fn parse_sym(b: Seq<u8>, pos: int) -> Option<(Sym, int)> {
    if pos < 0 || pos >= b.len() {
        None
    } else if b[pos] == 0 {
        Some((Sym::Start, pos + 1))
    } else if b[pos] == 2 {
        Some((Sym::End, pos + 1))
    } else if b[pos] == 1 && pos + 9 <= b.len() {
        let n = u64_at(b, pos + 1) as int;
        let s = pos + 9;
        if s + n <= b.len() && valid_utf8(b.subrange(s, s + n)) {
            Some((Sym::Word(decode_utf8(b.subrange(s, s + n))), s + n))
        } else {
            None
        }
    } else {
        None
    }
}

/// Reads a successor and its count at `pos`.
pub open spec fn parse_entry(b: Seq<u8>, pos: int) -> Option<((Sym, u32), int)> {
    match parse_sym(b, pos) {
        None => None,
        Some((t, p)) => if p + 8 <= b.len() && u64_at(b, p) <= u32::MAX {
            Some(((t, u64_at(b, p) as u32), p + 8))
        } else {
            None
        },
    }
}

/// Reads `n` successors from `pos` on.
pub open spec fn parse_entries(b: Seq<u8>, pos: int, n: nat) -> Option<(Seq<(Sym, u32)>, int)>
    decreases n,
{
    if n == 0 {
        Some((seq![], pos))
    } else {
        match parse_entry(b, pos) {
            None => None,
            Some((e, p)) => match parse_entries(b, p, (n - 1) as nat) {
                None => None,
                Some((es, q)) => Some((seq![e] + es, q)),
            },
        }
    }
}

/// Reads a row at `pos`.
pub open spec fn parse_row(b: Seq<u8>, pos: int) -> Option<((Sym, Seq<(Sym, u32)>), int)> {
    match parse_sym(b, pos) {
        None => None,
        Some((t, p)) => if p + 8 <= b.len() {
            match parse_entries(b, p + 8, u64_at(b, p) as nat) {
                None => None,
                Some((es, q)) => Some(((t, es), q)),
            }
        } else {
            None
        },
    }
}

/// Reads `n` rows from `pos` on.
pub open spec fn parse_rows(b: Seq<u8>, pos: int, n: nat) -> Option<(RowsView, int)>
    decreases n,
{
    if n == 0 {
        Some((seq![], pos))
    } else {
        match parse_row(b, pos) {
            None => None,
            Some((r, p)) => match parse_rows(b, p, (n - 1) as nat) {
                None => None,
                Some((rs, q)) => Some((seq![r] + rs, q)),
            },
        }
    }
}

/// The table that `b` encodes, if it encodes a well-formed one with nothing after it.
pub open spec fn decode_rows(b: Seq<u8>) -> Option<RowsView> {
    if b.len() < 8 {
        None
    } else {
        match parse_rows(b, 8, u64_at(b, 0) as nat) {
            Some((rs, q)) => if q == b.len() && rows_wf(rs) && rows_valid(rs) {
                Some(rs)
            } else {
                None
            },
            None => None,
        }
    }
}

/// `s` stands in `b` from `pos` on.
pub open spec fn bytes_at(b: Seq<u8>, pos: int, s: Seq<u8>) -> bool {
    0 <= pos && pos + s.len() <= b.len() && b.subrange(pos, pos + s.len()) == s
}

proof fn lemma_bytes_at_split(b: Seq<u8>, pos: int, s1: Seq<u8>, s2: Seq<u8>)
    requires
        bytes_at(b, pos, s1 + s2),
    ensures
        bytes_at(b, pos, s1),
        bytes_at(b, pos + s1.len(), s2),
{
    let whole = b.subrange(pos, pos + s1.len() + s2.len());
    assert(whole == s1 + s2);
    assert(b.subrange(pos, pos + s1.len()) =~= whole.subrange(0, s1.len() as int));
    assert((s1 + s2).subrange(0, s1.len() as int) =~= s1);
    assert(b.subrange(pos + s1.len(), pos + s1.len() + s2.len()) =~= whole.subrange(
        s1.len() as int,
        (s1.len() + s2.len()) as int,
    ));
    assert((s1 + s2).subrange(s1.len() as int, (s1.len() + s2.len()) as int) =~= s2);
}

proof fn lemma_u64_at(b: Seq<u8>, pos: int, x: u64)
    requires
        bytes_at(b, pos, le_bytes(x)),
    ensures
        u64_at(b, pos) == x,
{
    let s = b.subrange(pos, pos + 8);
    assert(b[pos] == s[0] && b[pos + 1] == s[1] && b[pos + 2] == s[2] && b[pos + 3] == s[3]);
    assert(b[pos + 4] == s[4] && b[pos + 5] == s[5] && b[pos + 6] == s[6] && b[pos + 7] == s[7]);
    lemma_le_round(x);
}

proof fn lemma_parse_sym(b: Seq<u8>, pos: int, t: Sym)
    requires
        bytes_at(b, pos, sym_bytes(t)),
        sym_fits(t),
    ensures
        parse_sym(b, pos) == Some((t, pos + sym_bytes(t).len())),
{
    assert(b[pos] == sym_bytes(t)[0]);
    if let Sym::Word(w) = t {
        let e = encode_utf8(w);
        lemma_bytes_at_split(b, pos, seq![1u8] + le_bytes(e.len() as u64), e);
        lemma_bytes_at_split(b, pos, seq![1u8], le_bytes(e.len() as u64));
        lemma_u64_at(b, pos + 1, e.len() as u64);
        encode_utf8_valid_utf8(w);
        encode_utf8_decode_utf8(w);
    }
}

proof fn lemma_parse_entry(b: Seq<u8>, pos: int, e: (Sym, u32))
    requires
        bytes_at(b, pos, entry_bytes(e)),
        sym_fits(e.0),
    ensures
        parse_entry(b, pos) == Some((e, pos + entry_bytes(e).len())),
{
    lemma_bytes_at_split(b, pos, sym_bytes(e.0), le_bytes(e.1 as u64));
    lemma_parse_sym(b, pos, e.0);
    lemma_u64_at(b, pos + sym_bytes(e.0).len(), e.1 as u64);
}

proof fn lemma_parse_entries(b: Seq<u8>, pos: int, es: Seq<(Sym, u32)>)
    requires
        bytes_at(b, pos, entries_bytes(es)),
        forall|j: int| 0 <= j < es.len() ==> sym_fits(#[trigger] es[j].0),
    ensures
        parse_entries(b, pos, es.len()) == Some((es, pos + entries_bytes(es).len())),
    decreases es.len(),
{
    if es.len() > 0 {
        lemma_bytes_at_split(b, pos, entry_bytes(es[0]), entries_bytes(es.skip(1)));
        assert(sym_fits(es[0].0));
        lemma_parse_entry(b, pos, es[0]);
        let rest = es.skip(1);
        assert forall|j: int| 0 <= j < rest.len() implies sym_fits(#[trigger] rest[j].0) by {
            assert(rest[j] == es[j + 1]);
        }
        lemma_parse_entries(b, pos + entry_bytes(es[0]).len(), rest);
        assert(seq![es[0]] + rest =~= es);
    }
}

proof fn lemma_parse_row(b: Seq<u8>, pos: int, r: (Sym, Seq<(Sym, u32)>))
    requires
        bytes_at(b, pos, row_bytes(r)),
        sym_fits(r.0),
        r.1.len() <= u64::MAX,
        forall|j: int| 0 <= j < r.1.len() ==> sym_fits(#[trigger] r.1[j].0),
    ensures
        parse_row(b, pos) == Some((r, pos + row_bytes(r).len())),
{
    lemma_bytes_at_split(b, pos, sym_bytes(r.0) + le_bytes(r.1.len() as u64), entries_bytes(r.1));
    lemma_bytes_at_split(b, pos, sym_bytes(r.0), le_bytes(r.1.len() as u64));
    lemma_parse_sym(b, pos, r.0);
    lemma_u64_at(b, pos + sym_bytes(r.0).len(), r.1.len() as u64);
    lemma_parse_entries(b, pos + sym_bytes(r.0).len() + 8, r.1);
}

proof fn lemma_parse_rows(b: Seq<u8>, pos: int, rs: RowsView)
    requires
        bytes_at(b, pos, rows_bytes(rs)),
        sizes_fit(rs),
    ensures
        parse_rows(b, pos, rs.len()) == Some((rs, pos + rows_bytes(rs).len())),
    decreases rs.len(),
{
    if rs.len() > 0 {
        lemma_bytes_at_split(b, pos, row_bytes(rs[0]), rows_bytes(rs.skip(1)));
        assert(sym_fits(rs[0].0));
        lemma_parse_row(b, pos, rs[0]);
        let rest = rs.skip(1);
        assert forall|i: int| 0 <= i < rest.len() implies sym_fits(#[trigger] rest[i].0)
            && rest[i].1.len() <= u64::MAX && forall|j: int|
            0 <= j < rest[i].1.len() ==> sym_fits(#[trigger] rest[i].1[j].0) by {
            assert(rest[i] == rs[i + 1]);
            assert(sym_fits(rs[i + 1].0));
        }
        lemma_parse_rows(b, pos + row_bytes(rs[0]).len(), rest);
        assert(seq![rs[0]] + rest =~= rs);
    }
}

/// Decoding the encoding of a well-formed table gives back the same table: the same rows
/// with the same successors and counts, in the same order.
pub proof fn lemma_round_trip(rs: RowsView)
    requires
        rows_wf(rs),
        rows_valid(rs),
        sizes_fit(rs),
    ensures
        decode_rows(model_bytes(rs)) == Some(rs),
{
    let b = model_bytes(rs);
    assert(b.subrange(0, b.len() as int) =~= b);
    lemma_bytes_at_split(b, 0, le_bytes(rs.len() as u64), rows_bytes(rs));
    lemma_u64_at(b, 0, rs.len() as u64);
    lemma_parse_rows(b, 8, rs);
}

/// `b1` agrees with `b2` on every position of `b1`.
pub open spec fn agrees(b1: Seq<u8>, b2: Seq<u8>) -> bool {
    b1.len() <= b2.len() && forall|i: int| 0 <= i < b1.len() ==> b1[i] == b2[i]
}

proof fn lemma_sym_ext(b1: Seq<u8>, b2: Seq<u8>, pos: int)
    requires
        agrees(b1, b2),
        parse_sym(b1, pos) is Some,
    ensures
        parse_sym(b2, pos) == parse_sym(b1, pos),
{
    if b1[pos] == 1 {
        let n = u64_at(b1, pos + 1) as int;
        assert(u64_at(b2, pos + 1) == u64_at(b1, pos + 1));
        assert(b1.subrange(pos + 9, pos + 9 + n) =~= b2.subrange(pos + 9, pos + 9 + n));
    }
}

proof fn lemma_entry_ext(b1: Seq<u8>, b2: Seq<u8>, pos: int)
    requires
        agrees(b1, b2),
        parse_entry(b1, pos) is Some,
    ensures
        parse_entry(b2, pos) == parse_entry(b1, pos),
{
    lemma_sym_ext(b1, b2, pos);
    let p = parse_sym(b1, pos)->Some_0.1;
    assert(u64_at(b2, p) == u64_at(b1, p));
}

proof fn lemma_entries_ext(b1: Seq<u8>, b2: Seq<u8>, pos: int, n: nat)
    requires
        agrees(b1, b2),
        parse_entries(b1, pos, n) is Some,
    ensures
        parse_entries(b2, pos, n) == parse_entries(b1, pos, n),
    decreases n,
{
    if n > 0 {
        lemma_entry_ext(b1, b2, pos);
        let p = parse_entry(b1, pos)->Some_0.1;
        lemma_entries_ext(b1, b2, p, (n - 1) as nat);
    }
}

proof fn lemma_row_ext(b1: Seq<u8>, b2: Seq<u8>, pos: int)
    requires
        agrees(b1, b2),
        parse_row(b1, pos) is Some,
    ensures
        parse_row(b2, pos) == parse_row(b1, pos),
{
    lemma_sym_ext(b1, b2, pos);
    let p = parse_sym(b1, pos)->Some_0.1;
    assert(u64_at(b2, p) == u64_at(b1, p));
    lemma_entries_ext(b1, b2, p + 8, u64_at(b1, p) as nat);
}

proof fn lemma_rows_ext(b1: Seq<u8>, b2: Seq<u8>, pos: int, n: nat)
    requires
        agrees(b1, b2),
        parse_rows(b1, pos, n) is Some,
    ensures
        parse_rows(b2, pos, n) == parse_rows(b1, pos, n),
    decreases n,
{
    if n > 0 {
        lemma_row_ext(b1, b2, pos);
        let p = parse_row(b1, pos)->Some_0.1;
        lemma_rows_ext(b1, b2, p, (n - 1) as nat);
    }
}

/// A strict prefix of the encoding of a well-formed table, the empty one included, decodes
/// to nothing: truncated bytes are always rejected.
pub proof fn lemma_prefix_rejected(rs: RowsView, k: int)
    requires
        rows_wf(rs),
        rows_valid(rs),
        sizes_fit(rs),
        0 <= k < model_bytes(rs).len(),
    ensures
        decode_rows(model_bytes(rs).take(k)) is None,
{
    let b = model_bytes(rs);
    let b1 = b.take(k);
    if k >= 8 {
        assert(agrees(b1, b));
        assert(u64_at(b1, 0) == u64_at(b, 0));
        assert(b.subrange(0, b.len() as int) =~= b);
        lemma_bytes_at_split(b, 0, le_bytes(rs.len() as u64), rows_bytes(rs));
        lemma_u64_at(b, 0, rs.len() as u64);
        lemma_parse_rows(b, 8, rs);
        if parse_rows(b1, 8, u64_at(b1, 0) as nat) is Some {
            lemma_rows_ext(b1, b, 8, u64_at(b1, 0) as nat);
        }
    }
}

proof fn lemma_entries_bytes_push(es: Seq<(Sym, u32)>, e: (Sym, u32))
    ensures
        entries_bytes(es.push(e)) == entries_bytes(es) + entry_bytes(e),
    decreases es.len(),
{
    if es.len() == 0 {
        assert(es.push(e).skip(1) =~= Seq::<(Sym, u32)>::empty());
        assert(entries_bytes(es.push(e).skip(1)) == Seq::<u8>::empty());
        assert(es.push(e)[0] == e);
        assert(entries_bytes(es.push(e)) =~= entry_bytes(e));
        assert(entries_bytes(es) + entry_bytes(e) =~= entry_bytes(e));
    } else {
        lemma_entries_bytes_push(es.skip(1), e);
        assert(es.push(e).skip(1) =~= es.skip(1).push(e));
        assert(entries_bytes(es.push(e)) =~= entries_bytes(es) + entry_bytes(e));
    }
}

proof fn lemma_rows_bytes_push(rs: RowsView, r: (Sym, Seq<(Sym, u32)>))
    ensures
        rows_bytes(rs.push(r)) == rows_bytes(rs) + row_bytes(r),
    decreases rs.len(),
{
    if rs.len() == 0 {
        assert(rs.push(r).skip(1) =~= RowsView::empty());
        assert(rows_bytes(rs.push(r).skip(1)) == Seq::<u8>::empty());
        assert(rs.push(r)[0] == r);
        assert(rows_bytes(rs.push(r)) =~= row_bytes(r));
        assert(rows_bytes(rs) + row_bytes(r) =~= row_bytes(r));
    } else {
        lemma_rows_bytes_push(rs.skip(1), r);
        assert(rs.push(r).skip(1) =~= rs.skip(1).push(r));
        assert(rows_bytes(rs.push(r)) =~= rows_bytes(rs) + row_bytes(r));
    }
}

fn put_u64(out: &mut Vec<u8>, x: u64)
    ensures
        final(out)@ == old(out)@ + le_bytes(x),
{
    out.push(x as u8);
    out.push((x >> 8u64) as u8);
    out.push((x >> 16u64) as u8);
    out.push((x >> 24u64) as u8);
    out.push((x >> 32u64) as u8);
    out.push((x >> 40u64) as u8);
    out.push((x >> 48u64) as u8);
    out.push((x >> 56u64) as u8);
    assert(final(out)@ =~= old(out)@ + le_bytes(x));
}

fn put_sym(out: &mut Vec<u8>, t: &Token)
    ensures
        final(out)@ == old(out)@ + sym_bytes(t@),
        sym_fits(t@),
{
    match t {
        Token::Bos => {
            out.push(0u8);
        },
        Token::Word(w) => {
            let bytes = w.as_str().as_bytes();
            out.push(1u8);
            put_u64(out, bytes.len() as u64);
            out.extend_from_slice(bytes);
            assert(final(out)@ =~= old(out)@ + sym_bytes(t@));
        },
        Token::Eos => {
            out.push(2u8);
        },
    }
}

fn put_row(out: &mut Vec<u8>, row: &Transitions)
    ensures
        final(out)@ == old(out)@ + row_bytes(row.row()),
        sym_fits(row.row().0),
        row.row().1.len() <= u64::MAX,
        forall|j: int| 0 <= j < row.row().1.len() ==> sym_fits(#[trigger] row.row().1[j].0),
{
    let ghost ev = entries_view(row.next@);
    put_sym(out, &row.from);
    put_u64(out, row.next.len() as u64);
    let ghost base = out@;
    let mut j: usize = 0;
    assert(ev.take(0) =~= Seq::<(Sym, u32)>::empty());
    while j < row.next.len()
        invariant
            j <= row.next.len(),
            ev == entries_view(row.next@),
            out@ == base + entries_bytes(ev.take(j as int)),
            forall|k: int| 0 <= k < j ==> sym_fits(#[trigger] ev[k].0),
        decreases row.next.len() - j,
    {
        put_sym(out, &row.next[j].0);
        put_u64(out, row.next[j].1 as u64);
        proof {
            assert(ev.take(j + 1) =~= ev.take(j as int).push(ev[j as int]));
            lemma_entries_bytes_push(ev.take(j as int), ev[j as int]);
        }
        j += 1;
    }
    assert(ev.take(j as int) =~= ev);
    assert(final(out)@ =~= old(out)@ + row_bytes(row.row()));
}

/// The bytes of `model`.
pub fn encode_model(model: MarkovModel) -> (r: Vec<u8>)
    ensures
        r@ == model_bytes(model.rows_view()),
        sizes_fit(model.rows_view()),
{
    let ghost rv = model.rows_view();
    let mut out: Vec<u8> = Vec::new();
    put_u64(&mut out, model.rows.len() as u64);
    let mut i: usize = 0;
    assert(rv.take(0) =~= RowsView::empty());
    while i < model.rows.len()
        invariant
            i <= model.rows.len(),
            rv == model.rows_view(),
            out@ == le_bytes(rv.len() as u64) + rows_bytes(rv.take(i as int)),
            forall|k: int|
                0 <= k < i ==> sym_fits(#[trigger] rv[k].0) && rv[k].1.len() <= u64::MAX
                    && forall|j: int| 0 <= j < rv[k].1.len() ==> sym_fits(#[trigger] rv[k].1[j].0),
        decreases model.rows.len() - i,
    {
        put_row(&mut out, &model.rows[i]);
        proof {
            assert(rv.take(i + 1) =~= rv.take(i as int).push(rv[i as int]));
            lemma_rows_bytes_push(rv.take(i as int), rv[i as int]);
        }
        i += 1;
    }
    assert(rv.take(i as int) =~= rv);
    assert(rv.len() == model.rows.len());
    assert forall|k: int| 0 <= k < rv.len() implies sym_fits(#[trigger] rv[k].0) && rv[k].1.len()
        <= u64::MAX && forall|j: int| 0 <= j < rv[k].1.len() ==> sym_fits(#[trigger] rv[k].1[j].0) by {
        assert(sym_fits(rv[k].0));
    }
    assert(rv.len() <= u64::MAX);
    assert(sizes_fit(rv));
    out
}

/// Relies on `String::from_utf8`: it accepts exactly the valid UTF-8 byte sequences, and the
/// string it returns holds those bytes.
#[verifier::external_body]
fn string_from_utf8(bytes: Vec<u8>) -> (r: Option<String>)
    ensures
        r is Some <==> valid_utf8(bytes@),
        r matches Some(s) ==> encode_utf8(s@) == bytes@,
{
    String::from_utf8(bytes).ok()
}

fn get_u64(b: &[u8], pos: usize) -> (r: u64)
    requires
        pos + 8 <= b@.len(),
    ensures
        r == u64_at(b@, pos as int),
{
    (b[pos] as u64) | ((b[pos + 1] as u64) << 8u64) | ((b[pos + 2] as u64) << 16u64) | ((b[pos
        + 3] as u64) << 24u64) | ((b[pos + 4] as u64) << 32u64) | ((b[pos + 5] as u64) << 40u64)
        | ((b[pos + 6] as u64) << 48u64) | ((b[pos + 7] as u64) << 56u64)
}

fn read_sym(b: &[u8], pos: usize) -> (r: Option<(Token, usize)>)
    ensures
        match parse_sym(b@, pos as int) {
            None => r is None,
            Some((t, p)) => r matches Some((tk, q)) && tk@ == t && q == p,
        },
        r matches Some((_, q)) ==> pos <= q <= b@.len(),
{
    if pos >= b.len() {
        return None;
    }
    let tag = b[pos];
    if tag == 0 {
        Some((Token::Bos, pos + 1))
    } else if tag == 2 {
        Some((Token::Eos, pos + 1))
    } else if tag == 1 && b.len() - pos >= 9 {
        let n = get_u64(b, pos + 1);
        let start = pos + 9;
        if n > (b.len() - start) as u64 {
            return None;
        }
        let end = start + n as usize;
        let mut bytes: Vec<u8> = Vec::new();
        let mut k: usize = start;
        while k < end
            invariant
                start <= k <= end,
                end <= b@.len(),
                bytes@ == b@.subrange(start as int, k as int),
            decreases end - k,
        {
            bytes.push(b[k]);
            k += 1;
            assert(bytes@ =~= b@.subrange(start as int, k as int));
        }
        match string_from_utf8(bytes) {
            Some(w) => {
                proof {
                    encode_utf8_decode_utf8(w@);
                }
                Some((Token::Word(w), end))
            },
            None => None,
        }
    } else {
        None
    }
}

fn read_entries(b: &[u8], pos: usize, n: u64) -> (r: Option<(Vec<(Token, u32)>, usize)>)
    requires
        pos <= b@.len(),
    ensures
        match parse_entries(b@, pos as int, n as nat) {
            None => r is None,
            Some((es, q)) => r matches Some((v, p)) && entries_view(v@) == es && p == q,
        },
        r matches Some((_, q)) ==> pos <= q <= b@.len(),
{
    let mut v: Vec<(Token, u32)> = Vec::new();
    let mut cur = pos;
    let mut i: u64 = 0;
    while i < n
        invariant
            pos <= cur <= b@.len(),
            i <= n,
            parse_entries(b@, pos as int, n as nat) == match parse_entries(
                b@,
                cur as int,
                (n - i) as nat,
            ) {
                None => None,
                Some((es, q)) => Some((entries_view(v@) + es, q)),
            },
        decreases n - i,
    {
        let ghost rest = (n - i) as nat;
        match read_sym(b, cur) {
            None => {
                return None;
            },
            Some((t, p)) => {
                if b.len() - p < 8 {
                    return None;
                }
                let c = get_u64(b, p);
                if c > u32::MAX as u64 {
                    return None;
                }
                let ghost old_v = v@;
                v.push((t, c as u32));
                proof {
                    assert(parse_entry(b@, cur as int) == Some(((v@.last().0@, c as u32), p + 8)));
                    assert(entries_view(v@) =~= entries_view(old_v).push((v@.last().0@, c as u32)));
                    match parse_entries(b@, p + 8, (rest - 1) as nat) {
                        None => {},
                        Some((es, q)) => {
                            assert(entries_view(v@) + es =~= entries_view(old_v) + (seq![
                                (v@.last().0@, c as u32),
                            ] + es));
                        },
                    }
                }
                cur = p + 8;
            },
        }
        i += 1;
    }
    assert(entries_view(v@) + Seq::<(Sym, u32)>::empty() =~= entries_view(v@));
    Some((v, cur))
}

fn read_row(b: &[u8], pos: usize) -> (r: Option<(Transitions, usize)>)
    ensures
        match parse_row(b@, pos as int) {
            None => r is None,
            Some((row, q)) => r matches Some((t, p)) && t.row() == row && p == q,
        },
        r matches Some((_, q)) ==> pos <= q <= b@.len(),
{
    match read_sym(b, pos) {
        None => None,
        Some((from, p)) => {
            if b.len() - p < 8 {
                return None;
            }
            let n = get_u64(b, p);
            match read_entries(b, p + 8, n) {
                None => None,
                Some((next, q)) => Some((Transitions { from, next }, q)),
            }
        },
    }
}

fn read_rows(b: &[u8], pos: usize, n: u64) -> (r: Option<(Vec<Transitions>, usize)>)
    requires
        pos <= b@.len(),
    ensures
        match parse_rows(b@, pos as int, n as nat) {
            None => r is None,
            Some((rs, q)) => r matches Some((v, p)) && v@.map_values(|t: Transitions| t.row())
                == rs && p == q,
        },
        r matches Some((_, q)) ==> q <= b@.len(),
{
    let mut v: Vec<Transitions> = Vec::new();
    let mut cur = pos;
    let mut i: u64 = 0;
    while i < n
        invariant
            pos <= cur <= b@.len(),
            i <= n,
            parse_rows(b@, pos as int, n as nat) == match parse_rows(
                b@,
                cur as int,
                (n - i) as nat,
            ) {
                None => None,
                Some((rs, q)) => Some((v@.map_values(|t: Transitions| t.row()) + rs, q)),
            },
        decreases n - i,
    {
        let ghost rest = (n - i) as nat;
        match read_row(b, cur) {
            None => {
                return None;
            },
            Some((row, p)) => {
                let ghost old_v = v@;
                let ghost rv = row.row();
                v.push(row);
                proof {
                    assert(v@.map_values(|t: Transitions| t.row()) =~= old_v.map_values(
                        |t: Transitions| t.row(),
                    ).push(rv));
                    match parse_rows(b@, p as int, (rest - 1) as nat) {
                        None => {},
                        Some((rs, q)) => {
                            assert(v@.map_values(|t: Transitions| t.row()) + rs =~= old_v.map_values(
                                |t: Transitions| t.row(),
                            ) + (seq![rv] + rs));
                        },
                    }
                }
                cur = p;
            },
        }
        i += 1;
    }
    assert(v@.map_values(|t: Transitions| t.row()) + RowsView::empty() =~= v@.map_values(
        |t: Transitions| t.row(),
    ));
    Some((v, cur))
}

fn check_entries(v: &Vec<(Token, u32)>) -> (r: bool)
    ensures
        r == entries_wf(entries_view(v@)),
{
    let ghost ev = entries_view(v@);
    if v.len() == 0 {
        return false;
    }
    let mut j: usize = 0;
    while j < v.len()
        invariant
            j <= v.len(),
            ev == entries_view(v@),
            forall|k: int| 0 <= k < j ==> ev[k].1 > 0,
            forall|a: int, c: int| 0 <= a < c < j ==> ev[a].0 != ev[c].0,
        decreases v.len() - j,
    {
        if v[j].1 == 0 {
            assert(ev[j as int].1 == 0);
            return false;
        }
        let mut i: usize = 0;
        while i < j
            invariant
                i <= j < v.len(),
                ev == entries_view(v@),
                forall|a: int| 0 <= a < i ==> ev[a].0 != ev[j as int].0,
            decreases j - i,
        {
            if v[i].0.same(&v[j].0) {
                assert(ev[i as int].0 == ev[j as int].0);
                assert(!unique_keys(ev));
                return false;
            }
            i += 1;
        }
        j += 1;
    }
    true
}

fn sym_allowed(t: &Token, as_source: bool) -> (r: bool)
    ensures
        r == ((if as_source {
            t@ != Sym::End
        } else {
            t@ != Sym::Start
        }) && word_nonempty(t@)),
{
    match t {
        Token::Bos => as_source,
        Token::Eos => !as_source,
        Token::Word(w) => !w.as_str().is_empty(),
    }
}

fn check_symbols(rows: &Vec<Transitions>) -> (r: bool)
    ensures
        r == rows_valid(rows@.map_values(|t: Transitions| t.row())),
{
    let ghost rv = rows@.map_values(|t: Transitions| t.row());
    let mut i: usize = 0;
    while i < rows.len()
        invariant
            i <= rows.len(),
            rv == rows@.map_values(|t: Transitions| t.row()),
            forall|k: int|
                0 <= k < i ==> (#[trigger] rv[k]).0 != Sym::End && word_nonempty(rv[k].0) && forall|
                    j: int,
                |
                    0 <= j < rv[k].1.len() ==> (#[trigger] rv[k].1[j]).0 != Sym::Start
                        && word_nonempty(rv[k].1[j].0),
        decreases rows.len() - i,
    {
        let row = &rows[i];
        if !sym_allowed(&row.from, true) {
            assert(!((rv[i as int]).0 != Sym::End && word_nonempty(rv[i as int].0)));
            return false;
        }
        let mut j: usize = 0;
        while j < row.next.len()
            invariant
                i < rows.len(),
                row == &rows@[i as int],
                j <= row.next.len(),
                rv == rows@.map_values(|t: Transitions| t.row()),
                forall|k: int|
                    0 <= k < j ==> (#[trigger] rv[i as int].1[k]).0 != Sym::Start && word_nonempty(
                        rv[i as int].1[k].0,
                    ),
            decreases row.next.len() - j,
        {
            if !sym_allowed(&row.next[j].0, false) {
                assert(rv[i as int].1[j as int].0 == row.next@[j as int].0@);
                return false;
            }
            j += 1;
        }
        i += 1;
    }
    true
}

fn check_rows(rows: &Vec<Transitions>) -> (r: bool)
    ensures
        r == rows_wf(rows@.map_values(|t: Transitions| t.row())),
{
    let ghost rv = rows@.map_values(|t: Transitions| t.row());
    let mut j: usize = 0;
    while j < rows.len()
        invariant
            j <= rows.len(),
            rv == rows@.map_values(|t: Transitions| t.row()),
            forall|k: int| 0 <= k < j ==> entries_wf(#[trigger] rv[k].1),
            forall|a: int, c: int| 0 <= a < c < j ==> rv[a].0 != rv[c].0,
        decreases rows.len() - j,
    {
        if !check_entries(&rows[j].next) {
            assert(!entries_wf(rv[j as int].1));
            return false;
        }
        let mut i: usize = 0;
        while i < j
            invariant
                i <= j < rows.len(),
                rv == rows@.map_values(|t: Transitions| t.row()),
                forall|a: int| 0 <= a < i ==> rv[a].0 != rv[j as int].0,
            decreases j - i,
        {
            if rows[i].from.same(&rows[j].from) {
                assert(rv[i as int].0 == rv[j as int].0);
                assert(!unique_keys(rv));
                return false;
            }
            i += 1;
        }
        j += 1;
    }
    true
}

/// The table that `data` encodes; fails with `Decode` on bytes that are truncated, carry
/// anything after the table, or do not encode a well-formed table whose sources are never the
/// end marker, whose destinations are never the start marker and whose words are not empty.
pub fn decode_model(data: &[u8]) -> (r: Result<MarkovModel, MarkovError>)
    ensures
        match decode_rows(data@) {
            Some(rs) => r matches Ok(m) && m.wf() && m.rows_view() == rs,
            None => r == Err::<MarkovModel, MarkovError>(MarkovError::Decode),
        },
{
    if data.len() < 8 {
        return Err(MarkovError::Decode);
    }
    let n = get_u64(data, 0);
    match read_rows(data, 8, n) {
        None => Err(MarkovError::Decode),
        Some((rows, q)) => {
            if q != data.len() || !check_rows(&rows) || !check_symbols(&rows) {
                return Err(MarkovError::Decode);
            }
            Ok(MarkovModel { rows })
        },
    }
}

} // verus!
