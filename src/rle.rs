use vstd::prelude::*;

use vstd::arithmetic::div_mod::{lemma_div_denominator, lemma_fundamental_div_mod};

use crate::le::{le32, read_u32_le};

verus! {

/// What the bytewise run-length decoder produces from `s`. A control byte
/// with its top bit set is followed by that many (low seven bits) literal
/// bytes; one with it clear is followed by a byte repeated that many times.
/// A literal run that the input cannot supply is skipped, control byte only,
/// and a repeat control with nothing after it ends the input.
pub open spec fn bytewise_decoded(s: Seq<u8>) -> Seq<u8>
    decreases s.len(),
{
    if s.len() == 0 {
        seq![]
    } else {
        let c = s[0];
        let n = (c as nat) % 128;
        let rest = s.drop_first();
        if c >= 128 {
            if rest.len() >= n {
                rest.take(n as int) + bytewise_decoded(rest.skip(n as int))
            } else {
                bytewise_decoded(rest)
            }
        } else if rest.len() >= 1 {
            Seq::new(n, |i: int| rest[0]) + bytewise_decoded(rest.skip(1))
        } else {
            seq![]
        }
    }
}

/// `unit` written out `n` times.
pub open spec fn repeat_seq(unit: Seq<u8>, n: nat) -> Seq<u8>
    decreases n,
{
    if n == 0 {
        seq![]
    } else {
        repeat_seq(unit, (n - 1) as nat) + unit
    }
}

/// What the wordwise run-length decoder produces from `s`: the same scheme as
/// the bytewise one with four-byte units. The control is a little-endian
/// 32-bit value whose top bit selects a literal run and whose low 28 bits
/// count units. Fewer than four trailing bytes are ignored.
pub open spec fn wordwise_decoded(s: Seq<u8>) -> Seq<u8>
    decreases s.len(),
{
    if s.len() < 4 {
        seq![]
    } else {
        let c = le32(s, 0);
        let n = c % 0x1000_0000;
        let rest = s.skip(4);
        if c >= 0x8000_0000 {
            if rest.len() >= 4 * n {
                rest.take(4 * n as int) + wordwise_decoded(rest.skip(4 * n as int))
            } else {
                wordwise_decoded(rest)
            }
        } else if rest.len() >= 4 {
            repeat_seq(rest.take(4), n) + wordwise_decoded(rest.skip(4))
        } else {
            seq![]
        }
    }
}

/// Expands bytewise run-length encoded data.
pub fn decompress_bytewise(bytes: &[u8]) -> (r: Vec<u8>)
    ensures
        r@ == bytewise_decoded(bytes@),
{
    let mut chunks: Vec<u8> = Vec::new();
    let mut pos: usize = 0;
    let len = bytes.len();
    assert(bytes@.skip(0) =~= bytes@);
    assert(chunks@ + bytewise_decoded(bytes@) =~= bytewise_decoded(bytes@));
    while pos < len
        invariant
            len == bytes@.len(),
            pos <= len,
            chunks@ + bytewise_decoded(bytes@.skip(pos as int)) == bytewise_decoded(bytes@),
        decreases len - pos,
    {
        let ghost s = bytes@.skip(pos as int);
        let control = bytes[pos];
        pos = pos + 1;
        let n = (control & 0x7fu8) as usize;
        assert(control & 0x7fu8 == control % 128) by (bit_vector);
        assert(s.drop_first() =~= bytes@.skip(pos as int));
        if control >= 128 {
            if len - pos >= n {
                let ghost before = chunks@;
                let mut k: usize = 0;
                while k < n
                    invariant
                        len == bytes@.len(),
                        pos + n <= len,
                        k <= n,
                        chunks@ == before + bytes@.subrange(pos as int, pos + k),
                    decreases n - k,
                {
                    chunks.push(bytes[pos + k]);
                    k = k + 1;
                    assert(chunks@ =~= before + bytes@.subrange(pos as int, pos + k));
                }
                assert(s.drop_first().take(n as int) =~= bytes@.subrange(pos as int, pos + n));
                assert(s.drop_first().skip(n as int) =~= bytes@.skip(pos + n));
                pos = pos + n;
            }
        } else if pos < len {
            let value = bytes[pos];
            let ghost before = chunks@;
            let mut k: usize = 0;
            while k < n
                invariant
                    k <= n,
                    chunks@ == before + Seq::new(k as nat, |i: int| value),
                decreases n - k,
            {
                chunks.push(value);
                k = k + 1;
                assert(chunks@ =~= before + Seq::new(k as nat, |i: int| value));
            }
            assert(Seq::new(n as nat, |i: int| s.drop_first()[0]) =~= Seq::new(
                n as nat,
                |i: int| value,
            ));
            assert(s.drop_first().skip(1) =~= bytes@.skip(pos + 1));
            pos = pos + 1;
        }
    }
    assert(bytes@.skip(len as int) =~= Seq::<u8>::empty());
    assert(chunks@ + bytewise_decoded(Seq::<u8>::empty()) =~= chunks@);
    chunks
}

/// Expands wordwise run-length encoded data.
pub fn decompress_wordwise(bytes: &[u8]) -> (r: Vec<u8>)
    ensures
        r@ == wordwise_decoded(bytes@),
{
    let mut chunks: Vec<u8> = Vec::new();
    let mut pos: usize = 0;
    let len = bytes.len();
    assert(bytes@.skip(0) =~= bytes@);
    assert(chunks@ + wordwise_decoded(bytes@) =~= wordwise_decoded(bytes@));
    while len - pos >= 4
        invariant
            len == bytes@.len(),
            pos <= len,
            chunks@ + wordwise_decoded(bytes@.skip(pos as int)) == wordwise_decoded(bytes@),
        decreases len - pos,
    {
        let ghost s = bytes@.skip(pos as int);
        let control = read_u32_le(bytes, pos);
        assert(le32(s, 0) == le32(bytes@, pos as int));
        pos = pos + 4;
        let n = (control & 0x0fff_ffffu32) as usize;
        assert(control & 0x0fff_ffffu32 == control % 0x1000_0000) by (bit_vector);
        assert(s.skip(4) =~= bytes@.skip(pos as int));
        if control >= 0x8000_0000u32 {
            if (len - pos) / 4 >= n {
                let m = 4 * n;
                let ghost before = chunks@;
                let mut k: usize = 0;
                while k < m
                    invariant
                        len == bytes@.len(),
                        pos + m <= len,
                        k <= m,
                        chunks@ == before + bytes@.subrange(pos as int, pos + k),
                    decreases m - k,
                {
                    chunks.push(bytes[pos + k]);
                    k = k + 1;
                    assert(chunks@ =~= before + bytes@.subrange(pos as int, pos + k));
                }
                assert(s.skip(4).take(m as int) =~= bytes@.subrange(pos as int, pos + m));
                assert(s.skip(4).skip(m as int) =~= bytes@.skip(pos + m));
                pos = pos + m;
            } else {
                assert(s.skip(4).len() < 4 * n);
            }
        } else if len - pos >= 4 {
            let b0 = bytes[pos];
            let b1 = bytes[pos + 1];
            let b2 = bytes[pos + 2];
            let b3 = bytes[pos + 3];
            let ghost unit = s.skip(4).take(4);
            assert(unit =~= seq![b0, b1, b2, b3]);
            let ghost before = chunks@;
            let mut k: usize = 0;
            while k < n
                invariant
                    k <= n,
                    unit == seq![b0, b1, b2, b3],
                    chunks@ == before + repeat_seq(unit, k as nat),
                decreases n - k,
            {
                chunks.push(b0);
                chunks.push(b1);
                chunks.push(b2);
                chunks.push(b3);
                k = k + 1;
                assert(chunks@ =~= before + repeat_seq(unit, k as nat));
            }
            assert(s.skip(4).skip(4) =~= bytes@.skip(pos + 4));
            pos = pos + 4;
        }
    }
    assert(wordwise_decoded(bytes@.skip(pos as int)) =~= Seq::<u8>::empty());
    assert(chunks@ + Seq::<u8>::empty() =~= chunks@);
    chunks
}

} // verus!

verus! {

/// One run of a run-length encoding: bytes copied as they are, or a unit
/// written out a number of times.
pub enum Run {
    Literal(Seq<u8>),
    Repeat(Seq<u8>, nat),
}

/// What a list of runs stands for.
pub open spec fn expand_runs(rs: Seq<Run>) -> Seq<u8>
    decreases rs.len(),
{
    if rs.len() == 0 {
        seq![]
    } else {
        let head = match rs[0] {
            Run::Literal(s) => s,
            Run::Repeat(u, n) => repeat_seq(u, n),
        };
        head + expand_runs(rs.drop_first())
    }
}

/// A run that the bytewise encoding can express: a literal of at most 127
/// bytes, or one byte repeated at most 127 times.
pub open spec fn bytewise_run_ok(r: Run) -> bool {
    match r {
        Run::Literal(s) => s.len() <= 127,
        Run::Repeat(u, n) => u.len() == 1 && n <= 127,
    }
}

/// The bytewise encoding of one run.
pub open spec fn bytewise_run(r: Run) -> Seq<u8> {
    match r {
        Run::Literal(s) => seq![(128 + s.len()) as u8] + s,
        Run::Repeat(u, n) => seq![n as u8] + u,
    }
}

/// The bytewise encoding of a list of runs.
pub open spec fn bytewise_encoded(rs: Seq<Run>) -> Seq<u8>
    decreases rs.len(),
{
    if rs.len() == 0 {
        seq![]
    } else {
        bytewise_run(rs[0]) + bytewise_encoded(rs.drop_first())
    }
}

/// The four little-endian bytes of a 32-bit value.
pub open spec fn le32_bytes(c: nat) -> Seq<u8> {
    seq![(c % 256) as u8, ((c / 256) % 256) as u8, ((c / 65536) % 256) as u8, (c / 16777216) as u8]
}

/// A run that the wordwise encoding can express: whole four-byte units, fewer
/// than 2^28 of them.
pub open spec fn wordwise_run_ok(r: Run) -> bool {
    match r {
        Run::Literal(s) => s.len() % 4 == 0 && s.len() / 4 < 0x1000_0000,
        Run::Repeat(u, n) => u.len() == 4 && n < 0x1000_0000,
    }
}

/// The wordwise encoding of one run.
pub open spec fn wordwise_run(r: Run) -> Seq<u8> {
    match r {
        Run::Literal(s) => le32_bytes(0x8000_0000 + s.len() / 4) + s,
        Run::Repeat(u, n) => le32_bytes(n) + u,
    }
}

/// The wordwise encoding of a list of runs.
pub open spec fn wordwise_encoded(rs: Seq<Run>) -> Seq<u8>
    decreases rs.len(),
{
    if rs.len() == 0 {
        seq![]
    } else {
        wordwise_run(rs[0]) + wordwise_encoded(rs.drop_first())
    }
}

proof fn lemma_repeat_byte(b: u8, n: nat)
    ensures
        repeat_seq(seq![b], n) == Seq::new(n, |i: int| b),
    decreases n,
{
    if n > 0 {
        lemma_repeat_byte(b, (n - 1) as nat);
        assert(Seq::new((n - 1) as nat, |i: int| b) + seq![b] =~= Seq::new(n, |i: int| b));
    }
}

proof fn lemma_le32_bytes(c: nat)
    requires
        c < 0x1_0000_0000,
    ensures
        le32(le32_bytes(c), 0) == c,
{
    lemma_fundamental_div_mod(c as int, 256);
    lemma_fundamental_div_mod((c / 256) as int, 256);
    lemma_fundamental_div_mod((c / 65536) as int, 256);
    lemma_div_denominator(c as int, 256, 256);
    lemma_div_denominator(c as int, 65536, 256);
    assert(c / 16777216 < 256);
}

/// Decoding the bytewise encoding of any list of expressible runs gives back
/// what the runs stand for.
pub proof fn lemma_bytewise_round_trip(rs: Seq<Run>)
    requires
        forall|i: int| 0 <= i < rs.len() ==> bytewise_run_ok(#[trigger] rs[i]),
    ensures
        bytewise_decoded(bytewise_encoded(rs)) == expand_runs(rs),
    decreases rs.len(),
{
    if rs.len() > 0 {
        let tail = rs.drop_first();
        assert forall|i: int| 0 <= i < tail.len() implies bytewise_run_ok(#[trigger] tail[i]) by {
            assert(tail[i] == rs[i + 1]);
        }
        lemma_bytewise_round_trip(tail);
        let e = bytewise_encoded(rs);
        let et = bytewise_encoded(tail);
        assert(bytewise_run_ok(rs[0]));
        match rs[0] {
            Run::Literal(s) => {
                let n = s.len();
                assert(e.drop_first() =~= s + et);
                assert((s + et).take(n as int) =~= s);
                assert((s + et).skip(n as int) =~= et);
            },
            Run::Repeat(u, n) => {
                assert(e.drop_first() =~= u + et);
                assert((u + et).skip(1) =~= et);
                assert(u =~= seq![u[0]]);
                lemma_repeat_byte(u[0], n);
                assert(Seq::new(n, |i: int| (u + et)[0]) =~= Seq::new(n, |i: int| u[0]));
            },
        }
    }
}

/// Decoding the wordwise encoding of any list of expressible runs gives back
/// what the runs stand for, each four-byte unit as it stands.
pub proof fn lemma_wordwise_round_trip(rs: Seq<Run>)
    requires
        forall|i: int| 0 <= i < rs.len() ==> wordwise_run_ok(#[trigger] rs[i]),
    ensures
        wordwise_decoded(wordwise_encoded(rs)) == expand_runs(rs),
    decreases rs.len(),
{
    if rs.len() > 0 {
        let tail = rs.drop_first();
        assert forall|i: int| 0 <= i < tail.len() implies wordwise_run_ok(#[trigger] tail[i]) by {
            assert(tail[i] == rs[i + 1]);
        }
        lemma_wordwise_round_trip(tail);
        let e = wordwise_encoded(rs);
        let et = wordwise_encoded(tail);
        assert(wordwise_run_ok(rs[0]));
        match rs[0] {
            Run::Literal(s) => {
                let k = s.len() / 4;
                let c = 0x8000_0000 + k;
                lemma_le32_bytes(c);
                assert(le32(e, 0) == le32(le32_bytes(c), 0));
                vstd::arithmetic::div_mod::lemma_fundamental_div_mod_converse(
                    c as int,
                    0x1000_0000,
                    8,
                    k as int,
                );
                assert(e.skip(4) =~= s + et);
                assert(4 * k == s.len());
                assert((s + et).take(4 * k as int) =~= s);
                assert((s + et).skip(4 * k as int) =~= et);
            },
            Run::Repeat(u, n) => {
                lemma_le32_bytes(n);
                assert(le32(e, 0) == le32(le32_bytes(n), 0));
                assert(e.skip(4) =~= u + et);
                assert((u + et).take(4) =~= u);
                assert((u + et).skip(4) =~= et);
            },
        }
    }
}

} // verus!
