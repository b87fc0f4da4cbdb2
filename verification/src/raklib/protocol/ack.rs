//! Acknowledgements: which datagrams arrived (ACK) or went missing (NACK).
use crate::binary::{
    be_u16, le_u24, lemma_le_u24_bound, lemma_u16_be, lemma_u24_le, u16_be, u24_le, BinaryStream,
    BinaryUtilError,
};
use crate::raklib::table::strictly_increasing;
use crate::raklib::protocol::consts::{ID_ACK, ID_NACK};
use vstd::prelude::*;
use vstd::relations::{sorted_by, total_ordering};
use vstd::seq_lib::{lemma_sorted_unique, to_multiset_build, to_multiset_insert};

verus! {

/// Sequence numbers are compared as integers.
pub open spec fn seq_leq() -> spec_fn(u32, u32) -> bool {
    |a: u32, b: u32| a <= b
}

/// Sequence numbers in increasing order, repeats kept.
pub open spec fn sorted_numbers(s: Seq<u32>) -> Seq<u32> {
    s.sort_by(seq_leq())
}

/// One record of an acknowledgement.
#[derive(Debug, Clone, Copy, PartialEq, Eq, Structural)]
pub enum AckNackRecord {
    /// One sequence number.
    Single(u32),
    /// Every sequence number from the first to the second, both included.
    Range(u32, u32),
}

/// The record for the numbers from `start` to `last`.
pub open spec fn make_record(start: u32, last: u32) -> AckNackRecord {
    if start == last {
        AckNackRecord::Single(start)
    } else {
        AckNackRecord::Range(start, last)
    }
}

/// The records of sorted numbers from index `i` on, when the run being built goes from
/// `start` to `last`: a number one past `last` extends the run, a repeat of `last` is
/// skipped, and any larger number closes the run and starts the next.
pub open spec fn runs_from(s: Seq<u32>, i: int, start: u32, last: u32) -> Seq<AckNackRecord>
    decreases s.len() - i,
{
    if i >= s.len() {
        seq![make_record(start, last)]
    } else if s[i] == last + 1 {
        runs_from(s, i + 1, start, s[i])
    } else if s[i] > last + 1 {
        seq![make_record(start, last)] + runs_from(s, i + 1, s[i], s[i])
    } else {
        runs_from(s, i + 1, start, last)
    }
}

/// The records of sorted numbers: one per maximal run of consecutive numbers.
pub open spec fn runs(s: Seq<u32>) -> Seq<AckNackRecord> {
    if s.len() == 0 {
        Seq::empty()
    } else {
        runs_from(s, 1, s[0], s[0])
    }
}

/// A record's bytes: a type byte (1 for one number, 0 for a range), then the low 24 bits
/// of each number, little-endian.
pub open spec fn enc_record(r: AckNackRecord) -> Seq<u8> {
    match r {
        AckNackRecord::Single(x) => seq![1u8] + u24_le(x),
        AckNackRecord::Range(a, b) => seq![0u8] + u24_le(a) + u24_le(b),
    }
}

pub open spec fn enc_records(rs: Seq<AckNackRecord>) -> Seq<u8>
    decreases rs.len(),
{
    if rs.len() == 0 {
        Seq::empty()
    } else {
        enc_record(rs[0]) + enc_records(rs.drop_first())
    }
}

/// The payload of an acknowledgement of `packets`: the big-endian record count, then the
/// records of the numbers in increasing order.
pub open spec fn enc_ack_payload(packets: Seq<u32>) -> Seq<u8> {
    let rs = runs(sorted_numbers(packets));
    u16_be(rs.len() as u16) + enc_records(rs)
}

/// The most sequence numbers one acknowledgement is read into.
pub open spec fn max_packets_per_ack() -> nat {
    8192
}

/// `n` consecutive numbers from `start`.
pub open spec fn number_range(start: u32, n: nat) -> Seq<u32> {
    Seq::new(n, |i: int| (start + i) as u32)
}

/// Reads up to `count` records after the numbers in `acc`, stopping early at the end of
/// the bytes or once the numbers reach the limit (a range is cut short at the limit, and
/// a range that ends before it starts is skipped). The outcome: the numbers and the
/// bytes read, or whether the bytes ran out (`true`) or a record type was unknown,
/// together with the numbers read before.
pub open spec fn parse_records(s: Seq<u8>, count: nat, acc: Seq<u32>) -> Result<
    (Seq<u32>, nat),
    (bool, Seq<u32>),
>
    decreases count,
{
    if count == 0 || s.len() == 0 || acc.len() >= max_packets_per_ack() {
        Ok((acc, 0nat))
    } else if s[0] == 1 {
        if s.len() < 4 {
            Err((true, acc))
        } else {
            match parse_records(s.skip(4), (count - 1) as nat, acc.push(le_u24(s.skip(1)))) {
                Ok((ps, n)) => Ok((ps, n + 4)),
                Err(e) => Err(e),
            }
        }
    } else if s[0] == 0 {
        if s.len() < 7 {
            Err((true, acc))
        } else {
            let start = le_u24(s.skip(1));
            let end = le_u24(s.skip(4));
            if end < start {
                match parse_records(s.skip(7), (count - 1) as nat, acc) {
                    Ok((ps, n)) => Ok((ps, n + 7)),
                    Err(e) => Err(e),
                }
            } else if end - start + 1 > max_packets_per_ack() || acc.len() + (end - start + 1)
                > max_packets_per_ack() {
                Ok(
                    (
                        acc + number_range(start, (max_packets_per_ack() - acc.len()) as nat),
                        7nat,
                    ),
                )
            } else {
                match parse_records(
                    s.skip(7),
                    (count - 1) as nat,
                    acc + number_range(start, (end - start + 1) as nat),
                ) {
                    Ok((ps, n)) => Ok((ps, n + 7)),
                    Err(e) => Err(e),
                }
            }
        }
    } else {
        Err((false, acc))
    }
}

/// The sequence numbers an acknowledgement covers.
#[derive(Debug, Clone)]
pub struct AcknowledgePacket {
    pub packets: Vec<u32>,
}

/// Comparing sequence numbers as integers is a total order.
proof fn lemma_seq_leq_total()
    ensures
        total_ordering(seq_leq()),
{
}

/// The numbers in increasing order.
fn sort_numbers(v: &Vec<u32>) -> (r: Vec<u32>)
    ensures
        r@ == sorted_numbers(v@),
{
    let mut out: Vec<u32> = Vec::new();
    let mut i: usize = 0;
    proof {
        assert(v@.take(0) =~= Seq::<u32>::empty());
    }
    while i < v.len()
        invariant
            i <= v@.len(),
            sorted_by(out@, seq_leq()),
            out@.to_multiset() == v@.take(i as int).to_multiset(),
        decreases v@.len() - i,
    {
        let x = v[i];
        let mut j: usize = 0;
        while j < out.len() && out[j] <= x
            invariant
                j <= out@.len(),
                forall|k: int| 0 <= k < j ==> out@[k] <= x,
            decreases out@.len() - j,
        {
            j = j + 1;
        }
        let ghost before = out@;
        out.insert(j, x);
        proof {
            to_multiset_insert(before, j as int, x);
            assert(v@.take(i + 1) =~= v@.take(i as int).push(x));
            to_multiset_build(v@.take(i as int), x);
            assert forall|a: int, b: int| 0 <= a < b < out@.len() implies #[trigger] (seq_leq())(
                out@[a],
                out@[b],
            ) by {
                let a0 = if a < j { a } else if a == j { -1 } else { a - 1 };
                let b0 = if b < j { b } else if b == j { -1 } else { b - 1 };
                if a != j && b != j {
                    assert((seq_leq())(before[a0], before[b0]));
                } else if a == j {
                    if j < before.len() {
                        assert((seq_leq())(before[j as int], before[b0]));
                    }
                }
            }
            assert(v@.take(i + 1) =~= v@.take(i as int).push(x));
        }
        i = i + 1;
    }
    proof {
        assert(v@.take(v@.len() as int) =~= v@);
        lemma_seq_leq_total();
        v@.lemma_sort_by_ensures(seq_leq());
        lemma_sorted_unique(out@, sorted_numbers(v@), seq_leq());
    }
    out
}

impl AcknowledgePacket {
    /// Writes the record count and the records of the numbers, sorted and grouped into
    /// runs.
    pub fn encode_records(&self, stream: &mut BinaryStream) -> (r: Result<(), BinaryUtilError>)
        ensures
            r is Ok,
            final(stream).pos() == old(stream).pos(),
            final(stream).data() == old(stream).data() + enc_ack_payload(self.packets@),
    {
        let packets = sort_numbers(&self.packets);
        let ghost s = packets@;
        let mut records: Vec<AckNackRecord> = Vec::new();
        let count = packets.len();
        if count > 0 {
            let mut ptr: usize = 1;
            let mut start = packets[0];
            let mut last = packets[0];
            while ptr < count
                invariant
                    1 <= ptr <= count,
                    count == s.len(),
                    packets@ == s,
                    records@ + runs_from(s, ptr as int, start, last) == runs(s),
                decreases count - ptr,
            {
                let current = packets[ptr];
                ptr = ptr + 1;
                if current as u64 == last as u64 + 1 {
                    last = current;
                } else if current as u64 > last as u64 + 1 {
                    let ghost before = records@;
                    if start == last {
                        records.push(AckNackRecord::Single(start));
                    } else {
                        records.push(AckNackRecord::Range(start, last));
                    }
                    proof {
                        assert(records@ + runs_from(s, ptr as int, current, current) =~= before
                            + runs_from(s, ptr - 1, start, last));
                    }
                    start = current;
                    last = current;
                }
            }
            let ghost before = records@;
            if start == last {
                records.push(AckNackRecord::Single(start));
            } else {
                records.push(AckNackRecord::Range(start, last));
            }
            proof {
                assert(records@ =~= before + runs_from(s, ptr as int, start, last));
            }
        } else {
            proof {
                assert(records@ =~= runs(s));
            }
        }
        let ghost rs = records@;
        let ghost base = stream.data();
        stream.put_u16_be(records.len() as u16);
        let ghost head = stream.data();
        let mut i: usize = 0;
        proof {
            assert(rs.take(0) =~= Seq::<AckNackRecord>::empty());
            assert(stream.data() =~= head + enc_records(rs.take(0)));
        }
        while i < records.len()
            invariant
                i <= records@.len(),
                records@ == rs,
                stream.pos() == old(stream).pos(),
                stream.data() == head + enc_records(rs.take(i as int)),
            decreases records@.len() - i,
        {
            match records[i] {
                AckNackRecord::Single(seq) => {
                    stream.put_u8(1);
                    stream.put_u24_le(seq);
                },
                AckNackRecord::Range(a, b) => {
                    stream.put_u8(0);
                    stream.put_u24_le(a);
                    stream.put_u24_le(b);
                },
            }
            proof {
                lemma_enc_records_push(rs.take(i as int), rs[i as int]);
                assert(rs.take(i + 1) =~= rs.take(i as int).push(rs[i as int]));
                assert(stream.data() =~= head + enc_records(rs.take(i + 1)));
            }
            i = i + 1;
        }
        proof {
            assert(rs.take(rs.len() as int) =~= rs);
            assert(stream.data() =~= old(stream).data() + enc_ack_payload(self.packets@));
        }
        Ok(())
    }

    /// Reads the record count and the records into the list of numbers, which it replaces.
    pub fn decode_records(&mut self, stream: &mut BinaryStream) -> (r: Result<(), BinaryUtilError>)
        ensures
            final(stream).data() == old(stream).data(),
            old(stream).remaining().len() < 2 ==> (r matches Err(e) && e.is_short())
                && final(self).packets@ == old(self).packets@,
            old(stream).remaining().len() >= 2 ==> match parse_records(
                old(stream).remaining().skip(2),
                be_u16(old(stream).remaining()) as nat,
                Seq::empty(),
            ) {
                Ok((ps, n)) => r is Ok && final(self).packets@ == ps && BinaryStream::advanced(
                    *old(stream),
                    *final(stream),
                    n + 2,
                ),
                Err((short, ps)) => (r matches Err(e) && e.is_short() == short)
                    && final(self).packets@ == ps,
            },
    {
        let record_count = stream.get_u16_be()?;
        self.packets.clear();
        let ghost body = old(stream).remaining().skip(2);
        let ghost mut c: nat = 0;
        let mut packet_count: usize = 0;
        let mut k: u16 = 0;
        proof {
            BinaryStream::lemma_advanced(*old(stream), *stream, 2);
            assert(body.skip(0) =~= body);
        }
        while k < record_count
            invariant
                k <= record_count,
                record_count == be_u16(old(stream).remaining()),
                old(stream).remaining().len() >= 2,
                body == old(stream).remaining().skip(2),
                c <= body.len(),
                stream.data() == old(stream).data(),
                BinaryStream::advanced(*old(stream), *stream, c + 2),
                stream.remaining() == body.skip(c as int),
                packet_count == self.packets@.len(),
                packet_count <= max_packets_per_ack(),
                parse_records(body, record_count as nat, Seq::empty()) == match parse_records(
                    stream.remaining(),
                    (record_count - k) as nat,
                    self.packets@,
                ) {
                    Ok((ps, n)) => Ok((ps, n + c)),
                    Err(e) => Err(e),
                },
            decreases record_count - k,
        {
            if stream.feof() || packet_count >= 8192 {
                proof {
                    stream.lemma_pos();
                }
                return Ok(());
            }
            let ghost cur = stream.remaining();
            let ghost s0 = *stream;
            let record_type = stream.get_u8()?;
            if record_type == 1 {
                let seq = stream.get_u24_le()?;
                self.packets.push(seq);
                packet_count = packet_count + 1;
                proof {
                    BinaryStream::lemma_advanced(s0, *stream, 4);
                    assert(cur.skip(1).skip(3) =~= cur.skip(4));
                    assert(body.skip(c as int).skip(4) =~= body.skip((c + 4) as int));
                    c = c + 4;
                }
            } else if record_type == 0 {
                let start = stream.get_u24_le()?;
                let end = stream.get_u24_le()?;
                proof {
                    BinaryStream::lemma_advanced(s0, *stream, 7);
                    lemma_le_u24_bound(cur.skip(1));
                    lemma_le_u24_bound(cur.skip(4));
                    assert(cur.skip(1).skip(3) =~= cur.skip(4));
                    assert(cur.skip(1).skip(3).skip(3) =~= cur.skip(7));
                    assert(body.skip(c as int).skip(7) =~= body.skip((c + 7) as int));
                }
                if end < start {
                    proof {
                        c = c + 7;
                    }
                } else {
                    let range_count = end - start + 1;
                    if range_count > 8192 || packet_count + (range_count as usize) > 8192 {
                        let allowed = 8192 - packet_count;
                        let ghost prior = self.packets@;
                        let mut j: usize = 0;
                        while j < allowed
                            invariant
                                j <= allowed,
                                allowed <= 8192,
                                allowed == max_packets_per_ack() - prior.len(),
                                start <= 0xff_ffff,
                                self.packets@ == prior + number_range(start, j as nat),
                            decreases allowed - j,
                        {
                            self.packets.push(start + j as u32);
                            proof {
                                assert(self.packets@ =~= prior + number_range(start, (j + 1) as nat));
                            }
                            j = j + 1;
                        }
                        proof {
                            c = c + 7;
                        }
                        return Ok(());
                    } else {
                        let ghost prior = self.packets@;
                        let mut x = start;
                        while x <= end
                            invariant
                                start <= x,
                                x <= end + 1,
                                end <= 0xff_ffff,
                                self.packets@ == prior + number_range(start, (x - start) as nat),
                            decreases end + 1 - x,
                        {
                            self.packets.push(x);
                            proof {
                                assert(self.packets@ =~= prior + number_range(start, (x + 1 - start) as nat));
                            }
                            x = x + 1;
                        }
                        packet_count = packet_count + range_count as usize;
                        proof {
                            c = c + 7;
                        }
                    }
                }
            } else {
                return Err(BinaryUtilError::InvalidData("Invalid ACK/NACK record type".to_owned()));
            }
            k = k + 1;
        }
        Ok(())
    }
}

/// Encoding one more record appends its bytes.
proof fn lemma_enc_records_push(rs: Seq<AckNackRecord>, r: AckNackRecord)
    ensures
        enc_records(rs.push(r)) == enc_records(rs) + enc_record(r),
    decreases rs.len(),
{
    if rs.len() == 0 {
        assert(rs.push(r).drop_first() =~= rs);
        assert(enc_records(rs.push(r).drop_first()) =~= Seq::<u8>::empty());
        assert(enc_records(rs) =~= Seq::<u8>::empty());
        assert(enc_records(rs.push(r)) =~= enc_records(rs) + enc_record(r));
    } else {
        assert(rs.push(r).drop_first() =~= rs.drop_first().push(r));
        lemma_enc_records_push(rs.drop_first(), r);
        assert(enc_records(rs.push(r)) =~= enc_records(rs) + enc_record(r));
    }
}

/// Whether every number fits in 24 bits.
pub open spec fn all_u24(s: Seq<u32>) -> bool {
    forall|i: int| 0 <= i < s.len() ==> s[i] < 0x1000000
}

/// The numbers of sorted `s` from index `i` on that differ from the one before them,
/// `last` being the number just before index `i`.
pub open spec fn fresh_after(s: Seq<u32>, i: int, last: u32) -> Seq<u32>
    decreases s.len() - i,
{
    if i >= s.len() {
        Seq::empty()
    } else if s[i] == last {
        fresh_after(s, i + 1, last)
    } else {
        seq![s[i]] + fresh_after(s, i + 1, s[i])
    }
}

/// The distinct numbers of `packets`, in increasing order.
pub open spec fn distinct_sorted(packets: Seq<u32>) -> Seq<u32> {
    let s = sorted_numbers(packets);
    if s.len() == 0 {
        Seq::empty()
    } else {
        seq![s[0]] + fresh_after(s, 1, s[0])
    }
}

/// Strictly increasing numbers have no repeat to skip.
proof fn lemma_fresh_strict(s: Seq<u32>, i: int)
    requires
        strictly_increasing(s),
        1 <= i <= s.len(),
    ensures
        fresh_after(s, i, s[i - 1]) == s.skip(i),
    decreases s.len() - i,
{
    if i < s.len() {
        lemma_fresh_strict(s, i + 1);
        assert(s[i - 1] < s[i]);
        assert(seq![s[i]] + s.skip(i + 1) =~= s.skip(i));
    } else {
        assert(s.skip(i) =~= Seq::<u32>::empty());
    }
}

/// Reading the records of the runs of sorted numbers from index `i` on, while the run
/// being built goes from `start` to `last`, gives that run's numbers and the rest of the
/// numbers, each once.
proof fn lemma_runs_parse(s: Seq<u32>, i: int, start: u32, last: u32, acc: Seq<u32>)
    requires
        sorted_by(s, seq_leq()),
        all_u24(s),
        1 <= i <= s.len(),
        last == s[i - 1],
        start <= last,
        acc.len() + (last - start + 1) + fresh_after(s, i, last).len() <= max_packets_per_ack(),
    ensures
        runs_from(s, i, start, last).len() <= fresh_after(s, i, last).len() + 1,
        parse_records(
            enc_records(runs_from(s, i, start, last)),
            runs_from(s, i, start, last).len(),
            acc,
        ) == Ok::<(Seq<u32>, nat), (bool, Seq<u32>)>(
            (
                acc + number_range(start, (last - start + 1) as nat) + fresh_after(s, i, last),
                enc_records(runs_from(s, i, start, last)).len(),
            ),
        ),
    decreases s.len() - i,
{
    let rs = runs_from(s, i, start, last);
    let n = (last - start + 1) as nat;
    lemma_u24_le(start);
    lemma_u24_le(last);
    if i >= s.len() {
        reveal_with_fuel(parse_records, 2);
        assert(rs == seq![make_record(start, last)]);
        assert(rs.drop_first() =~= Seq::<AckNackRecord>::empty());
        assert(rs[0] == make_record(start, last));
        assert(enc_records(rs.drop_first()) =~= Seq::<u8>::empty());
        assert(enc_records(rs) =~= enc_record(make_record(start, last)));
        let b = enc_records(rs);
        if start == last {
            assert(b.skip(1).take(3) =~= u24_le(start));
            assert(le_u24(b.skip(1)) == le_u24(u24_le(start)));
            assert(b.skip(4) =~= Seq::<u8>::empty());
            assert(acc.push(start) =~= acc + number_range(start, n) + fresh_after(s, i, last));
        } else {
            assert(b.skip(1).take(3) =~= u24_le(start));
            assert(b.skip(4).take(3) =~= u24_le(last));
            assert(le_u24(b.skip(1)) == le_u24(u24_le(start)));
            assert(le_u24(b.skip(4)) == le_u24(u24_le(last)));
            assert(b.skip(7) =~= Seq::<u8>::empty());
            assert(acc + number_range(start, n) =~= acc + number_range(start, n) + fresh_after(s, i, last));
        }
    } else if s[i] == last + 1 {
        lemma_runs_parse(s, i + 1, start, s[i], acc);
        assert(acc + number_range(start, (s[i] - start + 1) as nat) + fresh_after(s, i + 1, s[i])
            =~= acc + number_range(start, n) + fresh_after(s, i, last));
    } else if s[i] <= last {
        assert(seq_leq()(s[i - 1], s[i]));
        assert(s[i] == last);
        lemma_runs_parse(s, i + 1, start, last, acc);
    } else {
        let rec = make_record(start, last);
        let rest = runs_from(s, i + 1, s[i], s[i]);
        assert(rs == seq![rec] + rest);
        assert(rs.drop_first() =~= rest);
        assert(rs[0] == rec);
        let b = enc_records(rs);
        assert(b == enc_record(rec) + enc_records(rest));
        let acc2 = acc + number_range(start, n);
        lemma_runs_parse(s, i + 1, s[i], s[i], acc2);
        if start == last {
            assert(b.skip(1).take(3) =~= u24_le(start));
            assert(le_u24(b.skip(1)) == le_u24(u24_le(start)));
            assert(b.skip(4) =~= enc_records(rest));
            assert(acc.push(start) =~= acc2);
        } else {
            assert(b.skip(1).take(3) =~= u24_le(start));
            assert(b.skip(4).take(3) =~= u24_le(last));
            assert(le_u24(b.skip(1)) == le_u24(u24_le(start)));
            assert(le_u24(b.skip(4)) == le_u24(u24_le(last)));
            assert(b.skip(7) =~= enc_records(rest));
        }
        assert(acc2 + number_range(s[i], 1) + fresh_after(s, i + 1, s[i]) =~= acc + number_range(
            start,
            n,
        ) + fresh_after(s, i, last));
    }
}

/// An acknowledgement round trip: reading back the payload written for strictly
/// increasing 24-bit numbers, no more than one acknowledgement holds, gives the same
/// numbers, with every byte read.
pub proof fn lemma_ack_payload_roundtrip(s: Seq<u32>)
    requires
        strictly_increasing(s),
        all_u24(s),
        s.len() <= max_packets_per_ack(),
    ensures
        enc_ack_payload(s).len() >= 2,
        parse_records(
            enc_ack_payload(s).skip(2),
            be_u16(enc_ack_payload(s)) as nat,
            Seq::empty(),
        ) == Ok::<(Seq<u32>, nat), (bool, Seq<u32>)>((s, (enc_ack_payload(s).len() - 2) as nat)),
{
    lemma_seq_leq_total();
    s.lemma_sort_by_ensures(seq_leq());
    assert(sorted_by(s, seq_leq()));
    lemma_sorted_unique(s, sorted_numbers(s), seq_leq());
    assert(sorted_numbers(s) == s);
    let rs = runs(s);
    let p = enc_ack_payload(s);
    if s.len() == 0 {
        assert(rs =~= Seq::<AckNackRecord>::empty());
        lemma_u16_be(0);
        assert(enc_records(rs) =~= Seq::<u8>::empty());
        assert(p.skip(2) =~= Seq::<u8>::empty());
        assert(be_u16(p) == 0);
        assert(parse_records(p.skip(2), 0, Seq::empty()) == Ok::<(Seq<u32>, nat), (bool, Seq<u32>)>((Seq::<u32>::empty(), 0nat)));
        assert(s =~= Seq::<u32>::empty());
    } else {
        lemma_fresh_strict(s, 1);
        lemma_runs_parse(s, 1, s[0], s[0], Seq::empty());
        lemma_u16_be(rs.len() as u16);
        assert(p.skip(2) =~= enc_records(rs));
        assert(p.take(2) =~= u16_be(rs.len() as u16));
        assert(be_u16(p) == be_u16(u16_be(rs.len() as u16)));
        assert(Seq::<u32>::empty() + number_range(s[0], 1) + s.skip(1) =~= s);
        assert(be_u16(p) as nat == rs.len());
        assert(p.len() - 2 == enc_records(rs).len());
    }
}

/// From index `i` on, sorted numbers leave, each once and in increasing order, the ones
/// that differ from `last`, all larger than it.
proof fn lemma_fresh_after(s: Seq<u32>, i: int, last: u32)
    requires
        sorted_by(s, seq_leq()),
        1 <= i <= s.len(),
        last == s[i - 1],
    ensures
        strictly_increasing(fresh_after(s, i, last)),
        forall|k: int| 0 <= k < fresh_after(s, i, last).len() ==> fresh_after(s, i, last)[k] > last,
        forall|x: u32|
            fresh_after(s, i, last).contains(x) <==> (x != last && exists|k: int|
                i <= k < s.len() && s[k] == x),
    decreases s.len() - i,
{
    if i < s.len() {
        assert(seq_leq()(s[i - 1], s[i]));
        let f = fresh_after(s, i + 1, s[i]);
        lemma_fresh_after(s, i + 1, s[i]);
        assert forall|x: u32|
            fresh_after(s, i, last).contains(x) <==> (x != last && exists|k: int|
                i <= k < s.len() && s[k] == x) by {
            if exists|k: int| i <= k < s.len() && s[k] == x {
                let k = choose|k: int| i <= k < s.len() && s[k] == x;
                if x != last && s[i] != last && k > i && x != s[i] {
                    assert(f.contains(x));
                    let j = choose|j: int| 0 <= j < f.len() && f[j] == x;
                    assert((seq![s[i]] + f)[j + 1] == x);
                }
                if x != last && s[i] == last {
                    assert(k > i);
                }
                if x != last && s[i] != last && k == i {
                    assert((seq![s[i]] + f)[0] == x);
                }
                if x != last && s[i] != last && x == s[i] {
                    assert((seq![s[i]] + f)[0] == x);
                }
            }
            if fresh_after(s, i, last).contains(x) && s[i] != last {
                let j = choose|j: int|
                    0 <= j < fresh_after(s, i, last).len() && fresh_after(s, i, last)[j] == x;
                if j > 0 {
                    assert(f[j - 1] == x);
                    assert(f.contains(x));
                    let k = choose|k: int| i + 1 <= k < s.len() && s[k] == x;
                    assert(seq_leq()(s[i], s[k]));
                }
            }
        }
    }
}

/// The distinct numbers of `packets`, in increasing order, are what their name says: they
/// strictly increase, and they are exactly the numbers of `packets`.
pub proof fn law_distinct_sorted(packets: Seq<u32>)
    ensures
        strictly_increasing(distinct_sorted(packets)),
        forall|x: u32| distinct_sorted(packets).contains(x) <==> packets.contains(x),
{
    lemma_seq_leq_total();
    packets.lemma_sort_by_ensures(seq_leq());
    let s = sorted_numbers(packets);
    packets.to_multiset_ensures();
    s.to_multiset_ensures();
    assert forall|x: u32| s.contains(x) <==> packets.contains(x) by {
        assert(s.to_multiset().count(x) == packets.to_multiset().count(x));
    }
    if s.len() > 0 {
        lemma_fresh_after(s, 1, s[0]);
        let d = distinct_sorted(packets);
        let f = fresh_after(s, 1, s[0]);
        assert forall|a: int, b: int| 0 <= a < b < d.len() implies d[a] < d[b] by {
            if a == 0 {
                assert(d[b] == f[b - 1]);
            } else {
                assert(d[a] == f[a - 1] && d[b] == f[b - 1]);
            }
        }
        assert forall|x: u32| d.contains(x) <==> s.contains(x) by {
            if s.contains(x) {
                let k = choose|k: int| 0 <= k < s.len() && s[k] == x;
                if x == s[0] {
                    assert(d[0] == x);
                } else {
                    assert(k >= 1);
                    assert(f.contains(x));
                    let j = choose|j: int| 0 <= j < f.len() && f[j] == x;
                    assert(d[j + 1] == x);
                }
            }
            if d.contains(x) {
                let j = choose|j: int| 0 <= j < d.len() && d[j] == x;
                if j == 0 {
                    assert(s[0] == x);
                } else {
                    assert(f[j - 1] == x);
                    assert(f.contains(x));
                }
            }
        }
    } else {
        assert(distinct_sorted(packets) =~= Seq::<u32>::empty());
    }
}

/// An acknowledgement of 24-bit numbers in any order, repeats allowed, reads back as its
/// distinct numbers in increasing order, with every byte read, as long as no more than one
/// acknowledgement holds are distinct.
pub proof fn law_ack_payload_any_order(packets: Seq<u32>)
    requires
        all_u24(packets),
        distinct_sorted(packets).len() <= max_packets_per_ack(),
    ensures
        enc_ack_payload(packets).len() >= 2,
        parse_records(
            enc_ack_payload(packets).skip(2),
            be_u16(enc_ack_payload(packets)) as nat,
            Seq::empty(),
        ) == Ok::<(Seq<u32>, nat), (bool, Seq<u32>)>(
            (distinct_sorted(packets), (enc_ack_payload(packets).len() - 2) as nat),
        ),
{
    lemma_seq_leq_total();
    packets.lemma_sort_by_ensures(seq_leq());
    let s = sorted_numbers(packets);
    assert forall|k: int| 0 <= k < s.len() implies s[k] < 0x1000000 by {
        assert(s.contains(s[k]));
        assert(packets.contains(s[k]));
        let j = choose|j: int| 0 <= j < packets.len() && packets[j] == s[k];
    }
    let rs = runs(s);
    let p = enc_ack_payload(packets);
    if s.len() == 0 {
        assert(rs =~= Seq::<AckNackRecord>::empty());
        lemma_u16_be(0);
        assert(enc_records(rs) =~= Seq::<u8>::empty());
        assert(p.skip(2) =~= Seq::<u8>::empty());
        assert(be_u16(p) == 0);
        assert(distinct_sorted(packets) =~= Seq::<u32>::empty());
    } else {
        lemma_runs_parse(s, 1, s[0], s[0], Seq::empty());
        lemma_u16_be(rs.len() as u16);
        assert(p.skip(2) =~= enc_records(rs));
        assert(p.take(2) =~= u16_be(rs.len() as u16));
        assert(be_u16(p) == be_u16(u16_be(rs.len() as u16)));
        assert(Seq::<u32>::empty() + number_range(s[0], 1) + fresh_after(s, 1, s[0])
            =~= distinct_sorted(packets));
        assert(be_u16(p) as nat == rs.len());
    }
}

/// An acknowledgement: datagrams that arrived.
#[derive(Debug, Clone)]
pub struct ACK(pub AcknowledgePacket);

/// A negative acknowledgement: datagrams that went missing.
#[derive(Debug, Clone)]
pub struct NACK(pub AcknowledgePacket);

impl ACK {
    pub fn id() -> (r: u8)
        ensures
            r == ID_ACK,
    {
        ID_ACK
    }

    /// Writes the id byte and the records.
    pub fn encode(&self, stream: &mut BinaryStream) -> (r: Result<(), BinaryUtilError>)
        ensures
            r is Ok,
            final(stream).pos() == old(stream).pos(),
            final(stream).data() == old(stream).data() + seq![ID_ACK] + enc_ack_payload(
                self.0.packets@,
            ),
    {
        stream.put_u8(ID_ACK);
        self.0.encode_records(stream)?;
        proof {
            assert(stream.data() =~= old(stream).data() + seq![ID_ACK] + enc_ack_payload(
                self.0.packets@,
            ));
        }
        Ok(())
    }

    pub fn encode_payload(&self, stream: &mut BinaryStream) -> (r: Result<(), BinaryUtilError>)
        ensures
            r is Ok,
            final(stream).pos() == old(stream).pos(),
            final(stream).data() == old(stream).data() + enc_ack_payload(self.0.packets@),
    {
        self.0.encode_records(stream)
    }

    /// Reads the id byte, then the records.
    pub fn decode(stream: &mut BinaryStream) -> (r: Result<Self, BinaryUtilError>)
        ensures
            final(stream).data() == old(stream).data(),
            old(stream).remaining().len() < 1 ==> (r matches Err(e) && e.is_short()),
            old(stream).remaining().len() >= 1 && old(stream).remaining()[0] != ID_ACK ==> (r matches Err(
                e,
            ) && !e.is_short()),
            1 <= old(stream).remaining().len() < 3 && old(stream).remaining()[0] == ID_ACK ==> (r matches Err(
                e,
            ) && e.is_short()),
            old(stream).remaining().len() >= 3 && old(stream).remaining()[0] == ID_ACK ==> match parse_records(
                old(stream).remaining().skip(3),
                be_u16(old(stream).remaining().skip(1)) as nat,
                Seq::empty(),
            ) {
                Ok((ps, n)) => (r matches Ok(p) && p.0.packets@ == ps) && BinaryStream::advanced(
                    *old(stream),
                    *final(stream),
                    n + 3,
                ),
                Err((short, _)) => r matches Err(e) && e.is_short() == short,
            },
    {
        let ghost s0 = *stream;
        let b = stream.get_u8()?;
        if b != ID_ACK {
            return Err(BinaryUtilError::InvalidData("Unexpected packet id".to_owned()));
        }
        let ghost s1 = *stream;
        proof {
            BinaryStream::lemma_advanced(s0, s1, 1);
            if s0.remaining().len() >= 3 {
                assert(s0.remaining().skip(1).skip(2) =~= s0.remaining().skip(3));
            }
        }
        let mut base = AcknowledgePacket { packets: Vec::new() };
        base.decode_records(stream)?;
        Ok(ACK(base))
    }

    /// Reads the records into this packet.
    pub fn decode_payload(&mut self, stream: &mut BinaryStream) -> (r: Result<(), BinaryUtilError>)
        ensures
            final(stream).data() == old(stream).data(),
            old(stream).remaining().len() < 2 ==> (r matches Err(e) && e.is_short())
                && final(self).0.packets@ == old(self).0.packets@,
            old(stream).remaining().len() >= 2 ==> match parse_records(
                old(stream).remaining().skip(2),
                be_u16(old(stream).remaining()) as nat,
                Seq::empty(),
            ) {
                Ok((ps, n)) => r is Ok && final(self).0.packets@ == ps && BinaryStream::advanced(
                    *old(stream),
                    *final(stream),
                    n + 2,
                ),
                Err((short, ps)) => (r matches Err(e) && e.is_short() == short)
                    && final(self).0.packets@ == ps,
            },
    {
        self.0.decode_records(stream)
    }
}

impl NACK {
    pub fn id() -> (r: u8)
        ensures
            r == ID_NACK,
    {
        ID_NACK
    }

    /// Writes the id byte and the records.
    pub fn encode(&self, stream: &mut BinaryStream) -> (r: Result<(), BinaryUtilError>)
        ensures
            r is Ok,
            final(stream).pos() == old(stream).pos(),
            final(stream).data() == old(stream).data() + seq![ID_NACK] + enc_ack_payload(
                self.0.packets@,
            ),
    {
        stream.put_u8(ID_NACK);
        self.0.encode_records(stream)?;
        proof {
            assert(stream.data() =~= old(stream).data() + seq![ID_NACK] + enc_ack_payload(
                self.0.packets@,
            ));
        }
        Ok(())
    }

    pub fn encode_payload(&self, stream: &mut BinaryStream) -> (r: Result<(), BinaryUtilError>)
        ensures
            r is Ok,
            final(stream).pos() == old(stream).pos(),
            final(stream).data() == old(stream).data() + enc_ack_payload(self.0.packets@),
    {
        self.0.encode_records(stream)
    }

    /// Reads the id byte, then the records.
    pub fn decode(stream: &mut BinaryStream) -> (r: Result<Self, BinaryUtilError>)
        ensures
            final(stream).data() == old(stream).data(),
            old(stream).remaining().len() < 1 ==> (r matches Err(e) && e.is_short()),
            old(stream).remaining().len() >= 1 && old(stream).remaining()[0] != ID_NACK ==> (r matches Err(
                e,
            ) && !e.is_short()),
            1 <= old(stream).remaining().len() < 3 && old(stream).remaining()[0] == ID_NACK ==> (r matches Err(
                e,
            ) && e.is_short()),
            old(stream).remaining().len() >= 3 && old(stream).remaining()[0] == ID_NACK ==> match parse_records(
                old(stream).remaining().skip(3),
                be_u16(old(stream).remaining().skip(1)) as nat,
                Seq::empty(),
            ) {
                Ok((ps, n)) => (r matches Ok(p) && p.0.packets@ == ps) && BinaryStream::advanced(
                    *old(stream),
                    *final(stream),
                    n + 3,
                ),
                Err((short, _)) => r matches Err(e) && e.is_short() == short,
            },
    {
        let ghost s0 = *stream;
        let b = stream.get_u8()?;
        if b != ID_NACK {
            return Err(BinaryUtilError::InvalidData("Unexpected packet id".to_owned()));
        }
        let ghost s1 = *stream;
        proof {
            BinaryStream::lemma_advanced(s0, s1, 1);
            if s0.remaining().len() >= 3 {
                assert(s0.remaining().skip(1).skip(2) =~= s0.remaining().skip(3));
            }
        }
        let mut base = AcknowledgePacket { packets: Vec::new() };
        base.decode_records(stream)?;
        Ok(NACK(base))
    }

    /// Reads the records into this packet.
    pub fn decode_payload(&mut self, stream: &mut BinaryStream) -> (r: Result<(), BinaryUtilError>)
        ensures
            final(stream).data() == old(stream).data(),
            old(stream).remaining().len() < 2 ==> (r matches Err(e) && e.is_short())
                && final(self).0.packets@ == old(self).0.packets@,
            old(stream).remaining().len() >= 2 ==> match parse_records(
                old(stream).remaining().skip(2),
                be_u16(old(stream).remaining()) as nat,
                Seq::empty(),
            ) {
                Ok((ps, n)) => r is Ok && final(self).0.packets@ == ps && BinaryStream::advanced(
                    *old(stream),
                    *final(stream),
                    n + 2,
                ),
                Err((short, ps)) => (r matches Err(e) && e.is_short() == short)
                    && final(self).0.packets@ == ps,
            },
    {
        self.0.decode_records(stream)
    }
}

} // verus!
