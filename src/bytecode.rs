//! The bytecode image of a program: a version tag, an instruction count, and
//! each instruction with its span and operand. Spans are kept, so decoding an
//! image gives back exactly the program that was encoded.
use vstd::prelude::*;
use crate::token::{Span, Op, Instr, ParserToken, ParserTokenKind, instrs};

verus! {

/// The version of the image format, the fourth byte of every image.
pub const FORMAT_VERSION: u8 = 1;

/// Why a byte sequence is not a valid image.
#[derive(Clone, Copy, Debug, PartialEq, Eq, Structural)]
pub enum CodecError {
    /// The image does not start with the tag of this format version.
    BadTag,
    /// The image ends in the middle of a field.
    Truncated,
    /// An instruction starts with a byte that names no instruction.
    UnknownOpcode,
    /// Bytes follow the last instruction that the count announces.
    TrailingBytes,
}

/// The tag every image starts with: "TRB" and the format version.
pub open spec fn header() -> Seq<u8> {
    seq![0x54u8, 0x52u8, 0x42u8, FORMAT_VERSION]
}

/// A `u64` as eight bytes, least significant first.
pub open spec fn u64_le(v: u64) -> Seq<u8> {
    seq![
        (v & 0xff) as u8,
        ((v >> 8u64) & 0xff) as u8,
        ((v >> 16u64) & 0xff) as u8,
        ((v >> 24u64) & 0xff) as u8,
        ((v >> 32u64) & 0xff) as u8,
        ((v >> 40u64) & 0xff) as u8,
        ((v >> 48u64) & 0xff) as u8,
        ((v >> 56u64) & 0xff) as u8,
    ]
}

/// The `u64` whose bytes, least significant first, are the first eight of `b`.
pub open spec fn le_u64(b: Seq<u8>) -> u64 {
    (b[0] as u64) | ((b[1] as u64) << 8u64) | ((b[2] as u64) << 16u64) | ((b[3] as u64) << 24u64)
        | ((b[4] as u64) << 32u64) | ((b[5] as u64) << 40u64) | ((b[6] as u64) << 48u64) | ((
    b[7] as u64) << 56u64)
}

/// An `i64` as the `u64` with the same two's complement bits.
pub open spec fn i64_to_u64(v: i64) -> u64 {
    if v >= 0 {
        v as u64
    } else {
        (v + 0x1_0000_0000_0000_0000int) as u64
    }
}

/// The `i64` with the same two's complement bits as `u`.
pub open spec fn u64_to_i64(u: u64) -> i64 {
    if u <= 0x7fff_ffff_ffff_ffff {
        u as i64
    } else {
        (u - 0x1_0000_0000_0000_0000int) as i64
    }
}

/// The byte that starts the encoding of an instruction.
pub open spec fn opcode(op: Op) -> u8 {
    match op {
        Op::PushConst(_) => 0,
        Op::PushStr(_) => 1,
        Op::Add => 2,
        Op::Sub => 3,
        Op::Mul => 4,
        Op::Div => 5,
        Op::Neg => 6,
    }
}

pub open spec fn span_bytes(s: Span) -> Seq<u8> {
    u64_le(s.line) + u64_le(s.column) + u64_le(s.offset)
}

pub open spec fn operand_bytes(op: Op) -> Seq<u8> {
    match op {
        Op::PushConst(n) => u64_le(i64_to_u64(n)),
        Op::PushStr(s) => u64_le(s.len() as u64) + s,
        _ => Seq::empty(),
    }
}

/// The encoding of one instruction: opcode, span, operand.
pub open spec fn encode_instr(i: Instr) -> Seq<u8> {
    seq![opcode(i.op)] + span_bytes(i.span) + operand_bytes(i.op)
}

/// An instruction whose operand can be encoded: a string's length fits a `u64`.
pub open spec fn instr_ok(i: Instr) -> bool {
    match i.op {
        Op::PushStr(s) => s.len() <= u64::MAX,
        _ => true,
    }
}

/// A program that has an image.
pub open spec fn program_ok(p: Seq<Instr>) -> bool {
    &&& p.len() <= u64::MAX
    &&& forall|k: int| 0 <= k < p.len() ==> instr_ok(#[trigger] p[k])
}

/// The encodings of the instructions of `p`, one after another.
pub open spec fn encode_seq(p: Seq<Instr>) -> Seq<u8>
    decreases p.len(),
{
    if p.len() == 0 {
        Seq::empty()
    } else {
        encode_instr(p[0]) + encode_seq(p.drop_first())
    }
}

/// The image of a program.
pub open spec fn image(p: Seq<Instr>) -> Seq<u8> {
    header() + u64_le(p.len() as u64) + encode_seq(p)
}

/// The span stored in an instruction's encoding `b`.
pub open spec fn decode_span(b: Seq<u8>) -> Span {
    Span {
        line: le_u64(b.subrange(1, 9)),
        column: le_u64(b.subrange(9, 17)),
        offset: le_u64(b.subrange(17, 25)),
    }
}

/// The instruction at the start of `b`, and how many bytes it takes.
#[verifier::opaque]
pub open spec fn decode_one(b: Seq<u8>) -> Result<(Instr, nat), CodecError> {
    if b.len() < 1 {
        Err(CodecError::Truncated)
    } else if b[0] > 6 {
        Err(CodecError::UnknownOpcode)
    } else if b.len() < 25 {
        Err(CodecError::Truncated)
    } else {
        let span = decode_span(b);
        if b[0] == 0 {
            if b.len() < 33 {
                Err(CodecError::Truncated)
            } else {
                let n = u64_to_i64(le_u64(b.subrange(25, 33)));
                Ok((Instr { op: Op::PushConst(n), span }, 33))
            }
        } else if b[0] == 1 {
            if b.len() < 33 {
                Err(CodecError::Truncated)
            } else {
                let n = le_u64(b.subrange(25, 33));
                if b.len() - 33 < n {
                    Err(CodecError::Truncated)
                } else {
                    Ok((Instr { op: Op::PushStr(b.subrange(33, 33 + n)), span }, (33 + n) as nat))
                }
            }
        } else {
            let op = if b[0] == 2 {
                Op::Add
            } else if b[0] == 3 {
                Op::Sub
            } else if b[0] == 4 {
                Op::Mul
            } else if b[0] == 5 {
                Op::Div
            } else {
                Op::Neg
            };
            Ok((Instr { op, span }, 25))
        }
    }
}

/// `r` with `a` put in front of the program it holds.
pub open spec fn prepend(a: Seq<Instr>, r: Result<Seq<Instr>, CodecError>) -> Result<
    Seq<Instr>,
    CodecError,
> {
    match r {
        Ok(s) => Ok(a + s),
        Err(e) => Err(e),
    }
}

/// Exactly `n` instructions, which fill `b`.
pub open spec fn decode_n(b: Seq<u8>, n: nat) -> Result<Seq<Instr>, CodecError>
    decreases n,
{
    if n == 0 {
        if b.len() == 0 {
            Ok(Seq::empty())
        } else {
            Err(CodecError::TrailingBytes)
        }
    } else {
        match decode_one(b) {
            Err(e) => Err(e),
            Ok((x, k)) => prepend(seq![x], decode_n(b.subrange(k as int, b.len() as int), (n - 1) as nat)),
        }
    }
}

/// The program that an image holds, or why it holds none.
pub open spec fn decode_image(b: Seq<u8>) -> Result<Seq<Instr>, CodecError> {
    if b.len() < 4 || b.subrange(0, 4) != header() {
        Err(CodecError::BadTag)
    } else if b.len() < 12 {
        Err(CodecError::Truncated)
    } else {
        decode_n(b.subrange(12, b.len() as int), le_u64(b.subrange(4, 12)) as nat)
    }
}

/// The model of what `from_bytes` returns.
pub open spec fn decoded(r: Result<Vec<ParserToken>, CodecError>) -> Result<Seq<Instr>, CodecError> {
    match r {
        Ok(v) => Ok(instrs(v@)),
        Err(e) => Err(e),
    }
}

proof fn lemma_u64_round(v: u64)
    ensures
        le_u64(u64_le(v)) == v,
{
    assert((((v & 0xff) as u8) as u64) | (((((v >> 8u64) & 0xff) as u8) as u64) << 8u64) | ((((
    (v >> 16u64) & 0xff) as u8) as u64) << 16u64) | (((((v >> 24u64) & 0xff) as u8) as u64)
        << 24u64) | (((((v >> 32u64) & 0xff) as u8) as u64) << 32u64) | (((((v >> 40u64) & 0xff)
        as u8) as u64) << 40u64) | (((((v >> 48u64) & 0xff) as u8) as u64) << 48u64) | ((((( v
        >> 56u64) & 0xff) as u8) as u64) << 56u64) == v) by (bit_vector);
}

fn write_u64(out: &mut Vec<u8>, v: u64)
    ensures
        final(out)@ == old(out)@ + u64_le(v),
{
    out.push((v & 0xff) as u8);
    out.push(((v >> 8u64) & 0xff) as u8);
    out.push(((v >> 16u64) & 0xff) as u8);
    out.push(((v >> 24u64) & 0xff) as u8);
    out.push(((v >> 32u64) & 0xff) as u8);
    out.push(((v >> 40u64) & 0xff) as u8);
    out.push(((v >> 48u64) & 0xff) as u8);
    out.push(((v >> 56u64) & 0xff) as u8);
    assert(out@ =~= old(out)@ + u64_le(v));
}

fn read_u64(b: &[u8], pos: usize) -> (r: u64)
    requires
        pos + 8 <= b@.len(),
    ensures
        r == le_u64(b@.subrange(pos as int, pos + 8)),
{
    let s = Ghost(b@.subrange(pos as int, pos + 8));
    assert(s@[0] == b@[pos as int] && s@[1] == b@[pos + 1] && s@[2] == b@[pos + 2] && s@[3]
        == b@[pos + 3] && s@[4] == b@[pos + 4] && s@[5] == b@[pos + 5] && s@[6] == b@[pos + 6]
        && s@[7] == b@[pos + 7]);
    (b[pos] as u64) | ((b[pos + 1] as u64) << 8u64) | ((b[pos + 2] as u64) << 16u64) | ((b[pos
        + 3] as u64) << 24u64) | ((b[pos + 4] as u64) << 32u64) | ((b[pos + 5] as u64) << 40u64)
        | ((b[pos + 6] as u64) << 48u64) | ((b[pos + 7] as u64) << 56u64)
}

fn i64_bits(v: i64) -> (r: u64)
    ensures
        r == i64_to_u64(v),
{
    if v >= 0 {
        v as u64
    } else {
        ((v + 1 + 0x7fff_ffff_ffff_ffff) as u64) + 0x8000_0000_0000_0000
    }
}

fn bits_i64(u: u64) -> (r: i64)
    ensures
        r == u64_to_i64(u),
{
    if u <= 0x7fff_ffff_ffff_ffff {
        u as i64
    } else {
        ((u - 0x8000_0000_0000_0000) as i64) - 0x7fff_ffff_ffff_ffff - 1
    }
}

fn encode_token(out: &mut Vec<u8>, t: &ParserToken)
    ensures
        final(out)@ == old(out)@ + encode_instr(t@),
{
    let code: u8 = match &t.kind {
        ParserTokenKind::PushConst(_) => 0,
        ParserTokenKind::PushStr(_) => 1,
        ParserTokenKind::Add => 2,
        ParserTokenKind::Sub => 3,
        ParserTokenKind::Mul => 4,
        ParserTokenKind::Div => 5,
        ParserTokenKind::Neg => 6,
    };
    out.push(code);
    write_u64(out, t.span.line);
    write_u64(out, t.span.column);
    write_u64(out, t.span.offset);
    let ghost mid = out@;
    match &t.kind {
        ParserTokenKind::PushConst(n) => {
            write_u64(out, i64_bits(*n));
        },
        ParserTokenKind::PushStr(s) => {
            write_u64(out, s.len() as u64);
            let ghost with_len = out@;
            let mut i: usize = 0;
            while i < s.len()
                invariant
                    i <= s@.len(),
                    out@ == with_len + s@.subrange(0, i as int),
                decreases s@.len() - i,
            {
                out.push(s[i]);
                i += 1;
                assert(out@ =~= with_len + s@.subrange(0, i as int));
            }
            assert(s@.subrange(0, s@.len() as int) =~= s@);
        },
        _ => {},
    }
    assert(out@ =~= old(out)@ + encode_instr(t@));
}

proof fn lemma_encode_push(s: Seq<Instr>, x: Instr)
    ensures
        encode_seq(s.push(x)) == encode_seq(s) + encode_instr(x),
    decreases s.len(),
{
    if s.len() == 0 {
        assert(s.push(x).drop_first() =~= s);
        assert(encode_seq(s.push(x)) =~= encode_seq(s) + encode_instr(x));
    } else {
        assert(s.push(x).drop_first() =~= s.drop_first().push(x));
        lemma_encode_push(s.drop_first(), x);
        assert(encode_seq(s.push(x)) =~= encode_seq(s) + encode_instr(x));
    }
}

/// The image of a program.
pub fn to_bytes(tokens: &Vec<ParserToken>) -> (r: Vec<u8>)
    ensures
        r@ == image(instrs(tokens@)),
{
    let mut out: Vec<u8> = Vec::new();
    out.push(0x54u8);
    out.push(0x52u8);
    out.push(0x42u8);
    out.push(FORMAT_VERSION);
    write_u64(&mut out, tokens.len() as u64);
    let ghost start = out@;
    let ghost p = instrs(tokens@);
    let mut i: usize = 0;
    while i < tokens.len()
        invariant
            i <= tokens@.len(),
            p == instrs(tokens@),
            out@ == start + encode_seq(p.take(i as int)),
        decreases tokens@.len() - i,
    {
        encode_token(&mut out, &tokens[i]);
        proof {
            assert(p.take(i + 1) =~= p.take(i as int).push(p[i as int]));
            lemma_encode_push(p.take(i as int), p[i as int]);
        }
        i += 1;
    }
    assert(p.take(i as int) =~= p);
    assert(out@ =~= image(p));
    out
}

fn decode_token(b: &[u8], pos: usize) -> (r: Result<(ParserToken, usize), CodecError>)
    requires
        pos <= b@.len(),
    ensures
        match r {
            Ok((t, k)) => pos < k <= b@.len() && decode_one(b@.subrange(pos as int, b@.len() as int))
                == Ok::<(Instr, nat), CodecError>((t@, (k - pos) as nat)),
            Err(e) => decode_one(b@.subrange(pos as int, b@.len() as int)) == Err::<(Instr, nat), CodecError>(e),
        },
{
    let ghost rest = b@.subrange(pos as int, b@.len() as int);
    reveal(decode_one);
    if pos >= b.len() {
        return Err(CodecError::Truncated);
    }
    let code = b[pos];
    if code > 6 {
        return Err(CodecError::UnknownOpcode);
    }
    if b.len() - pos < 25 {
        return Err(CodecError::Truncated);
    }
    let line = read_u64(b, pos + 1);
    let column = read_u64(b, pos + 9);
    let offset = read_u64(b, pos + 17);
    let span = Span { line, column, offset };
    proof {
        assert(b@.subrange(pos + 1, pos + 9) =~= rest.subrange(1, 9));
        assert(b@.subrange(pos + 9, pos + 17) =~= rest.subrange(9, 17));
        assert(b@.subrange(pos + 17, pos + 25) =~= rest.subrange(17, 25));
    }
    if code == 0 || code == 1 {
        if b.len() - pos < 33 {
            return Err(CodecError::Truncated);
        }
        let v = read_u64(b, pos + 25);
        proof {
            assert(b@.subrange(pos + 25, pos + 33) =~= rest.subrange(25, 33));
        }
        if code == 0 {
            let n = bits_i64(v);
            return Ok((ParserToken { kind: ParserTokenKind::PushConst(n), span }, pos + 33));
        }
        let avail = b.len() - pos - 33;
        if (avail as u64) < v {
            return Err(CodecError::Truncated);
        }
        let n = v as usize;
        let start = pos + 33;
        let mut bytes: Vec<u8> = Vec::new();
        let mut i: usize = 0;
        while i < n
            invariant
                i <= n,
                start + n <= b@.len(),
                start + n <= usize::MAX,
                bytes@ == b@.subrange(start as int, start + i),
            decreases n - i,
        {
            bytes.push(b[start + i]);
            i += 1;
            assert(bytes@ =~= b@.subrange(start as int, start + i));
        }
        assert(bytes@ =~= rest.subrange(33, 33 + v));
        return Ok((ParserToken { kind: ParserTokenKind::PushStr(bytes), span }, start + n));
    }
    let kind = if code == 2 {
        ParserTokenKind::Add
    } else if code == 3 {
        ParserTokenKind::Sub
    } else if code == 4 {
        ParserTokenKind::Mul
    } else if code == 5 {
        ParserTokenKind::Div
    } else {
        ParserTokenKind::Neg
    };
    Ok((ParserToken { kind, span }, pos + 25))
}

/// The program that an image holds; an error, and no program, where the image
/// has another tag, ends early, holds an unknown instruction or has bytes left
/// over.
pub fn from_bytes(b: &[u8]) -> (r: Result<Vec<ParserToken>, CodecError>)
    ensures
        decoded(r) == decode_image(b@),
{
    if b.len() < 4 || b[0] != 0x54u8 || b[1] != 0x52u8 || b[2] != 0x42u8 || b[3] != FORMAT_VERSION {
        proof {
            if b@.len() >= 4 {
                assert(b@.subrange(0, 4)[0] == b@[0] && b@.subrange(0, 4)[1] == b@[1]
                    && b@.subrange(0, 4)[2] == b@[2] && b@.subrange(0, 4)[3] == b@[3]);
            }
        }
        return Err(CodecError::BadTag);
    }
    assert(b@.subrange(0, 4) =~= header());
    if b.len() < 12 {
        return Err(CodecError::Truncated);
    }
    let n = read_u64(b, 4);
    let ghost body = b@.subrange(12, b@.len() as int);
    let mut out: Vec<ParserToken> = Vec::new();
    let mut pos: usize = 12;
    let mut i: u64 = 0;
    assert(instrs(out@) + Seq::<Instr>::empty() =~= Seq::<Instr>::empty());
    assert(b@.subrange(pos as int, b@.len() as int) == body);
    while i < n
        invariant
            12 <= pos <= b@.len(),
            i <= n,
            decode_image(b@) == decode_n(body, n as nat),
            decode_n(body, n as nat) == prepend(
                instrs(out@),
                decode_n(b@.subrange(pos as int, b@.len() as int), (n - i) as nat),
            ),
        decreases n - i,
    {
        let ghost rest = b@.subrange(pos as int, b@.len() as int);
        match decode_token(b, pos) {
            Err(e) => {
                return Err(e);
            },
            Ok((t, k)) => {
                proof {
                    assert(rest.subrange((k - pos) as int, rest.len() as int) =~= b@.subrange(
                        k as int,
                        b@.len() as int,
                    ));
                    let tail = decode_n(b@.subrange(k as int, b@.len() as int), (n - i - 1) as nat);
                    assert(instrs(out@.push(t)) =~= instrs(out@).push(t@));
                    match tail {
                        Ok(s) => {
                            assert(instrs(out@).push(t@) + s =~= instrs(out@) + (seq![t@] + s));
                        },
                        Err(_) => {},
                    }
                }
                out.push(t);
                pos = k;
                i += 1;
            },
        }
    }
    if pos < b.len() {
        return Err(CodecError::TrailingBytes);
    }
    assert(instrs(out@) + Seq::<Instr>::empty() =~= instrs(out@));
    Ok(out)
}

proof fn lemma_decode_one_encoded(x: Instr, rest: Seq<u8>)
    requires
        instr_ok(x),
    ensures
        decode_one(encode_instr(x) + rest) == Ok::<(Instr, nat), CodecError>((x, encode_instr(x).len())),
{
    reveal(decode_one);
    let e = encode_instr(x);
    let b = e + rest;
    assert(b.subrange(1, 9) =~= u64_le(x.span.line));
    assert(b.subrange(9, 17) =~= u64_le(x.span.column));
    assert(b.subrange(17, 25) =~= u64_le(x.span.offset));
    lemma_u64_round(x.span.line);
    lemma_u64_round(x.span.column);
    lemma_u64_round(x.span.offset);
    assert(decode_span(b) == x.span);
    match x.op {
        Op::PushConst(n) => {
            assert(b.subrange(25, 33) =~= u64_le(i64_to_u64(n)));
            lemma_u64_round(i64_to_u64(n));
        },
        Op::PushStr(s) => {
            assert(b.subrange(25, 33) =~= u64_le(s.len() as u64));
            lemma_u64_round(s.len() as u64);
            assert(b.subrange(33, 33 + s.len() as int) =~= s);
        },
        _ => {},
    }
}

proof fn lemma_decode_n_encoded(q: Seq<Instr>)
    requires
        forall|k: int| 0 <= k < q.len() ==> instr_ok(#[trigger] q[k]),
    ensures
        decode_n(encode_seq(q), q.len()) == Ok::<Seq<Instr>, CodecError>(q),
    decreases q.len(),
{
    if q.len() > 0 {
        let e = encode_instr(q[0]);
        let tail = q.drop_first();
        assert(instr_ok(q[0]));
        assert forall|k: int| 0 <= k < tail.len() implies instr_ok(#[trigger] tail[k]) by {
            assert(tail[k] == q[k + 1]);
        }
        lemma_decode_one_encoded(q[0], encode_seq(tail));
        let b = encode_seq(q);
        assert(b.subrange(e.len() as int, b.len() as int) =~= encode_seq(tail));
        lemma_decode_n_encoded(tail);
        assert(seq![q[0]] + tail =~= q);
    } else {
        assert(q =~= Seq::<Instr>::empty());
    }
}

/// Decoding the image of a program gives back that program, spans included.
pub proof fn lemma_round_trip(p: Seq<Instr>)
    requires
        program_ok(p),
    ensures
        decode_image(image(p)) == Ok::<Seq<Instr>, CodecError>(p),
{
    let b = image(p);
    assert(b.subrange(0, 4) =~= header());
    assert(b.subrange(4, 12) =~= u64_le(p.len() as u64));
    lemma_u64_round(p.len() as u64);
    assert(b.subrange(12, b.len() as int) =~= encode_seq(p));
    lemma_decode_n_encoded(p);
}

proof fn lemma_decode_one_prefix(x: Instr, t: Seq<u8>)
    requires
        instr_ok(x),
        t.len() < encode_instr(x).len(),
        t == encode_instr(x).subrange(0, t.len() as int),
    ensures
        decode_one(t) is Err,
{
    reveal(decode_one);
    let e = encode_instr(x);
    if t.len() >= 33 {
        match x.op {
            Op::PushStr(s) => {
                assert(t.subrange(25, 33) =~= u64_le(s.len() as u64));
                lemma_u64_round(s.len() as u64);
            },
            _ => {},
        }
    }
    if t.len() >= 1 {
        assert(t[0] == e[0]);
    }
}

proof fn lemma_decode_n_prefix(q: Seq<Instr>, t: Seq<u8>)
    requires
        forall|k: int| 0 <= k < q.len() ==> instr_ok(#[trigger] q[k]),
        t.len() < encode_seq(q).len(),
        t == encode_seq(q).subrange(0, t.len() as int),
    ensures
        decode_n(t, q.len()) is Err,
    decreases q.len(),
{
    if q.len() > 0 {
        let e = encode_instr(q[0]);
        let tail = q.drop_first();
        assert(instr_ok(q[0]));
        assert forall|k: int| 0 <= k < tail.len() implies instr_ok(#[trigger] tail[k]) by {
            assert(tail[k] == q[k + 1]);
        }
        if t.len() < e.len() {
            assert(t =~= e.subrange(0, t.len() as int));
            lemma_decode_one_prefix(q[0], t);
        } else {
            let t2 = t.subrange(e.len() as int, t.len() as int);
            assert(t =~= e + t2);
            lemma_decode_one_encoded(q[0], t2);
            assert(t2 =~= encode_seq(tail).subrange(0, t2.len() as int));
            lemma_decode_n_prefix(tail, t2);
        }
    }
}

/// A strict prefix of an image is never taken for a program: decoding it fails.
pub proof fn lemma_truncated_image_fails(p: Seq<Instr>, n: nat)
    requires
        program_ok(p),
        n < image(p).len(),
    ensures
        decode_image(image(p).subrange(0, n as int)) is Err,
{
    let b = image(p);
    let t = b.subrange(0, n as int);
    if n >= 12 {
        assert(t.subrange(0, 4) =~= header());
        assert(t.subrange(4, 12) =~= u64_le(p.len() as u64));
        lemma_u64_round(p.len() as u64);
        let body = t.subrange(12, n as int);
        assert(body =~= encode_seq(p).subrange(0, body.len() as int));
        lemma_decode_n_prefix(p, body);
    } else if n >= 4 {
        assert(t.subrange(0, 4) =~= header());
    }
}

/// Bytes that do not start with this format's tag are refused as such.
pub proof fn lemma_bad_tag_fails(b: Seq<u8>)
    requires
        b.len() < 4 || b.subrange(0, 4) != header(),
    ensures
        decode_image(b) == Err::<Seq<Instr>, CodecError>(CodecError::BadTag),
{
}

} // verus!
