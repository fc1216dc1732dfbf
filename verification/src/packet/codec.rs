//! The wire format.
//!
//! Integers are big-endian. A term or an index is 8 bytes, an id 16, a flag 1 byte (nonzero is
//! true), an entry 9 bytes (term, command). An RPC is a one byte tag followed by its fields in
//! declaration order; the entries of an AppendEntries are preceded by their count as 2 bytes.
//! A packet is its header (from, to) followed by its RPC.

use crate::log::{Entry, Idx, Term, TermIdx};
use crate::packet::{
    AppendEntries, AppendEntriesResp, AppendEntriesView, Header, Packet, PacketView, RequestVote,
    RequestVoteResp, Rpc, RpcView, APPEND_ENTRIES_RESP_TAG, APPEND_ENTRIES_TAG,
    REQUEST_VOTE_RESP_TAG, REQUEST_VOTE_TAG,
};
use crate::server::{Id, PeerId, ServerId};
use s2n_codec::DecoderBuffer;
use vstd::prelude::*;
use vstd::slice::slice_subrange;

verus! {

// ---------------------------------------------------------------------------------------------
// Integers

/// The 8 big-endian bytes of `x`.
pub open spec fn u64_be(x: u64) -> Seq<u8> {
    seq![
        (x >> 56u64) as u8,
        (x >> 48u64) as u8,
        (x >> 40u64) as u8,
        (x >> 32u64) as u8,
        (x >> 24u64) as u8,
        (x >> 16u64) as u8,
        (x >> 8u64) as u8,
        x as u8,
    ]
}

/// The integer that the first 8 bytes of `b` hold, big-endian.
pub open spec fn be_u64(b: Seq<u8>) -> u64 {
    ((b[0] as u64) << 56u64) | ((b[1] as u64) << 48u64) | ((b[2] as u64) << 40u64) | ((
    b[3] as u64) << 32u64) | ((b[4] as u64) << 24u64) | ((b[5] as u64) << 16u64) | ((b[6] as u64)
        << 8u64) | (b[7] as u64)
}

/// The 2 big-endian bytes of `x`.
pub open spec fn u16_be(x: u16) -> Seq<u8> {
    seq![(x >> 8u16) as u8, x as u8]
}

/// The integer that the first 2 bytes of `b` hold, big-endian.
pub open spec fn be_u16(b: Seq<u8>) -> u16 {
    ((b[0] as u16) << 8u16) | (b[1] as u16)
}

pub proof fn lemma_u64_be_roundtrip(x: u64)
    ensures
        be_u64(u64_be(x)) == x,
{
    let b = u64_be(x);
    let (b0, b1, b2, b3, b4, b5, b6, b7) = (b[0], b[1], b[2], b[3], b[4], b[5], b[6], b[7]);
    assert(((b0 as u64) << 56u64) | ((b1 as u64) << 48u64) | ((b2 as u64) << 40u64) | ((
    b3 as u64) << 32u64) | ((b4 as u64) << 24u64) | ((b5 as u64) << 16u64) | ((b6 as u64) << 8u64)
        | (b7 as u64) == x) by (bit_vector)
        requires
            b0 == (x >> 56u64) as u8,
            b1 == (x >> 48u64) as u8,
            b2 == (x >> 40u64) as u8,
            b3 == (x >> 32u64) as u8,
            b4 == (x >> 24u64) as u8,
            b5 == (x >> 16u64) as u8,
            b6 == (x >> 8u64) as u8,
            b7 == x as u8,
    ;
}

pub proof fn lemma_u16_be_roundtrip(x: u16)
    ensures
        be_u16(u16_be(x)) == x,
{
    let b = u16_be(x);
    let (b0, b1) = (b[0], b[1]);
    assert(((b0 as u16) << 8u16) | (b1 as u16) == x) by (bit_vector)
        requires
            b0 == (x >> 8u16) as u8,
            b1 == x as u8,
    ;
}

/// The integer `s2n_codec` decodes from the front of `bytes`.
///
/// `DecoderBuffer::decode::<u64>` fails when fewer than 8 bytes remain; otherwise it reads the
/// first 8 bytes in network (big-endian) order.
#[verifier::external_body]
fn s2n_decode_u64(bytes: &[u8]) -> (value: Option<u64>)
    ensures
        value is Some <==> bytes@.len() >= 8,
        value is Some ==> value->0 == be_u64(bytes@),
{
    match DecoderBuffer::new(bytes).decode::<u64>() {
        Ok((value, _)) => Some(value),
        Err(_) => None,
    }
}

/// The integer `s2n_codec` decodes from the front of `bytes`.
///
/// `DecoderBuffer::decode::<u16>` fails when fewer than 2 bytes remain; otherwise it reads the
/// first 2 bytes in network (big-endian) order.
#[verifier::external_body]
fn s2n_decode_u16(bytes: &[u8]) -> (value: Option<u16>)
    ensures
        value is Some <==> bytes@.len() >= 2,
        value is Some ==> value->0 == be_u16(bytes@),
{
    match DecoderBuffer::new(bytes).decode::<u16>() {
        Ok((value, _)) => Some(value),
        Err(_) => None,
    }
}

/// The integer held by the 8 bytes of `b` at `i`.
pub open spec fn u64_at(b: Seq<u8>, i: int) -> u64 {
    be_u64(b.subrange(i, i + 8))
}

/// The integer held by the 2 bytes of `b` at `i`.
pub open spec fn u16_at(b: Seq<u8>, i: int) -> u16 {
    be_u16(b.subrange(i, i + 2))
}

pub(crate) fn push_u64(out: &mut Vec<u8>, x: u64)
    ensures
        final(out)@ == old(out)@ + u64_be(x),
{
    out.push((x >> 56u64) as u8);
    out.push((x >> 48u64) as u8);
    out.push((x >> 40u64) as u8);
    out.push((x >> 32u64) as u8);
    out.push((x >> 24u64) as u8);
    out.push((x >> 16u64) as u8);
    out.push((x >> 8u64) as u8);
    out.push(x as u8);
    assert(out@ =~= old(out)@ + u64_be(x));
}

fn push_u16(out: &mut Vec<u8>, x: u16)
    ensures
        final(out)@ == old(out)@ + u16_be(x),
{
    out.push((x >> 8u16) as u8);
    out.push(x as u8);
    assert(out@ =~= old(out)@ + u16_be(x));
}

fn push_id(out: &mut Vec<u8>, id: &[u8; 16])
    ensures
        final(out)@ == old(out)@ + id@,
{
    let mut i: usize = 0;
    while i < 16
        invariant
            i <= 16,
            out@ == old(out)@ + id@.subrange(0, i as int),
        decreases 16 - i,
    {
        out.push(id[i]);
        i = i + 1;
        assert(id@.subrange(0, i as int) == id@.subrange(0, i - 1 as int).push(id@[i - 1]));
    }
    assert(id@.subrange(0, 16) == id@);
}

fn read_u64(bytes: &[u8], pos: usize) -> (value: Option<u64>)
    ensures
        value is Some <==> pos + 8 <= bytes@.len(),
        value is Some ==> value->0 == u64_at(bytes@, pos as int),
{
    if pos > bytes.len() || bytes.len() - pos < 8 {
        return None;
    }
    let v = s2n_decode_u64(slice_subrange(bytes, pos, pos + 8));
    proof {
        assert(bytes@.subrange(pos as int, pos + 8).len() == 8);
    }
    v
}

fn read_u16(bytes: &[u8], pos: usize) -> (value: Option<u16>)
    ensures
        value is Some <==> pos + 2 <= bytes@.len(),
        value is Some ==> value->0 == u16_at(bytes@, pos as int),
{
    if pos > bytes.len() || bytes.len() - pos < 2 {
        return None;
    }
    s2n_decode_u16(slice_subrange(bytes, pos, pos + 2))
}

fn read_id(bytes: &[u8], pos: usize) -> (id: Option<[u8; 16]>)
    ensures
        id is Some <==> pos + 16 <= bytes@.len(),
        id is Some ==> id->0@ == bytes@.subrange(pos as int, pos + 16),
{
    if pos > bytes.len() || bytes.len() - pos < 16 {
        return None;
    }
    let mut id: [u8; 16] = [0u8; 16];
    let mut i: usize = 0;
    while i < 16
        invariant
            i <= 16,
            pos + 16 <= bytes@.len(),
            bytes@.len() == bytes.len(),
            forall|j: int| 0 <= j < i ==> id@[j] == bytes@[pos + j],
        decreases 16 - i,
    {
        id[i] = bytes[pos + i];
        i = i + 1;
    }
    assert(id@ =~= bytes@.subrange(pos as int, pos + 16));
    Some(id)
}


// ---------------------------------------------------------------------------------------------
// Encodings

pub open spec fn flag_byte(flag: bool) -> u8 {
    if flag {
        1
    } else {
        0
    }
}

pub open spec fn enc_term_idx(ti: TermIdx) -> Seq<u8> {
    u64_be(ti.term.0) + u64_be(ti.idx.0)
}

pub open spec fn enc_entry(e: Entry) -> Seq<u8> {
    u64_be(e.term.0).push(e.command)
}

pub open spec fn enc_entries(es: Seq<Entry>) -> Seq<u8>
    decreases es.len(),
{
    if es.len() == 0 {
        Seq::empty()
    } else {
        enc_entries(es.drop_last()) + enc_entry(es.last())
    }
}

pub open spec fn enc_header(h: Header) -> Seq<u8> {
    h.from.0@ + h.to.0@
}

// ---------------------------------------------------------------------------------------------
// Parses: what the bytes of `b` at `i` hold

pub open spec fn term_at(b: Seq<u8>, i: int, t: Term) -> bool {
    0 <= i && i + 8 <= b.len() && u64_at(b, i) == t.0
}

pub open spec fn idx_at(b: Seq<u8>, i: int, x: Idx) -> bool {
    0 <= i && i + 8 <= b.len() && u64_at(b, i) == x.0
}

pub open spec fn term_idx_at(b: Seq<u8>, i: int, ti: TermIdx) -> bool {
    term_at(b, i, ti.term) && idx_at(b, i + 8, ti.idx)
}

pub open spec fn id_at(b: Seq<u8>, i: int, id: [u8; 16]) -> bool {
    0 <= i && i + 16 <= b.len() && b.subrange(i, i + 16) == id@
}

pub open spec fn entry_bytes_at(b: Seq<u8>, i: int, e: Entry) -> bool {
    0 <= i && i + 9 <= b.len() && u64_at(b, i) == e.term.0 && b[i + 8] == e.command
}

pub open spec fn header_at(b: Seq<u8>, i: int, h: Header) -> bool {
    id_at(b, i, h.from.0) && id_at(b, i + 16, h.to.0)
}

/// `bytes[from..to]` of `b`, where an encoding `s` of length `to - from` was written at `i`.
proof fn lemma_sub(b: Seq<u8>, i: int, s: Seq<u8>, from: int, to: int)
    requires
        0 <= i,
        i + s.len() <= b.len(),
        b.subrange(i, i + s.len()) == s,
        0 <= from <= to <= s.len(),
    ensures
        b.subrange(i + from, i + to) == s.subrange(from, to),
{
    assert(b.subrange(i + from, i + to) =~= s.subrange(from, to)) by {
        assert forall|k: int| 0 <= k < to - from implies b.subrange(i + from, i + to)[k] == s.subrange(
            from,
            to,
        )[k] by {
            assert(b.subrange(i, i + s.len())[from + k] == b[i + from + k]);
        }
    }
}

proof fn lemma_u64_at(b: Seq<u8>, i: int, x: u64)
    requires
        0 <= i,
        i + 8 <= b.len(),
        b.subrange(i, i + 8) == u64_be(x),
    ensures
        u64_at(b, i) == x,
{
    lemma_u64_be_roundtrip(x);
}

pub proof fn lemma_term_idx_roundtrip(b: Seq<u8>, i: int, ti: TermIdx)
    requires
        0 <= i,
        i + 16 <= b.len(),
        b.subrange(i, i + 16) == enc_term_idx(ti),
    ensures
        term_idx_at(b, i, ti),
{
    let s = enc_term_idx(ti);
    lemma_sub(b, i, s, 0, 8);
    lemma_sub(b, i, s, 8, 16);
    assert(s.subrange(0, 8) =~= u64_be(ti.term.0));
    assert(s.subrange(8, 16) =~= u64_be(ti.idx.0));
    lemma_u64_at(b, i, ti.term.0);
    lemma_u64_at(b, i + 8, ti.idx.0);
}

pub proof fn lemma_entry_roundtrip(b: Seq<u8>, i: int, e: Entry)
    requires
        0 <= i,
        i + 9 <= b.len(),
        b.subrange(i, i + 9) == enc_entry(e),
    ensures
        entry_bytes_at(b, i, e),
{
    let s = enc_entry(e);
    lemma_sub(b, i, s, 0, 8);
    assert(s.subrange(0, 8) =~= u64_be(e.term.0));
    lemma_u64_at(b, i, e.term.0);
    assert(b.subrange(i, i + 9)[8] == b[i + 8]);
}

pub proof fn lemma_enc_entries(es: Seq<Entry>)
    ensures
        enc_entries(es).len() == 9 * es.len(),
        forall|k: int|
            0 <= k < es.len() ==> #[trigger] enc_entries(es).subrange(9 * k, 9 * k + 9) == enc_entry(
                es[k],
            ),
    decreases es.len(),
{
    if es.len() > 0 {
        let d = es.drop_last();
        lemma_enc_entries(d);
        let s = enc_entries(es);
        assert forall|k: int| 0 <= k < es.len() implies #[trigger] s.subrange(9 * k, 9 * k + 9)
            == enc_entry(es[k]) by {
            if k < d.len() {
                assert(s.subrange(9 * k, 9 * k + 9) =~= enc_entries(d).subrange(9 * k, 9 * k + 9));
                assert(d[k] == es[k]);
            } else {
                assert(s.subrange(9 * k, 9 * k + 9) =~= enc_entry(es.last()));
            }
        }
    }
}

pub proof fn lemma_header_roundtrip(b: Seq<u8>, i: int, h: Header)
    requires
        0 <= i,
        i + 32 <= b.len(),
        b.subrange(i, i + 32) == enc_header(h),
    ensures
        header_at(b, i, h),
{
    let s = enc_header(h);
    lemma_sub(b, i, s, 0, 16);
    lemma_sub(b, i, s, 16, 32);
    assert(s.subrange(0, 16) =~= h.from.0@);
    assert(s.subrange(16, 32) =~= h.to.0@);
}

// ---------------------------------------------------------------------------------------------
// The parts

impl Term {
    /// Append the 8 bytes of this term.
    pub fn encode(&self, out: &mut Vec<u8>)
        ensures
            final(out)@ == old(out)@ + u64_be(self.0),
    {
        push_u64(out, self.0);
    }

    /// The term at `pos` of `bytes`.
    pub fn decode_at(bytes: &[u8], pos: usize) -> (term: Option<Term>)
        ensures
            term is Some <==> pos + 8 <= bytes@.len(),
            term is Some ==> term_at(bytes@, pos as int, term->0),
    {
        match read_u64(bytes, pos) {
            Some(v) => Some(Term(v)),
            None => None,
        }
    }

    /// The term at the front of `bytes`, and the number of bytes it took.
    pub fn decode(bytes: &[u8]) -> (res: Option<(Term, usize)>)
        ensures
            res is Some <==> bytes@.len() >= 8,
            res is Some ==> term_at(bytes@, 0, (res->0).0) && (res->0).1 == 8,
    {
        match Term::decode_at(bytes, 0) {
            Some(t) => Some((t, 8)),
            None => None,
        }
    }
}

impl Idx {
    /// Append the 8 bytes of this index.
    pub fn encode(&self, out: &mut Vec<u8>)
        ensures
            final(out)@ == old(out)@ + u64_be(self.0),
    {
        push_u64(out, self.0);
    }

    /// The index at `pos` of `bytes`.
    pub fn decode_at(bytes: &[u8], pos: usize) -> (idx: Option<Idx>)
        ensures
            idx is Some <==> pos + 8 <= bytes@.len(),
            idx is Some ==> idx_at(bytes@, pos as int, idx->0),
    {
        match read_u64(bytes, pos) {
            Some(v) => Some(Idx(v)),
            None => None,
        }
    }

    /// The index at the front of `bytes`, and the number of bytes it took.
    pub fn decode(bytes: &[u8]) -> (res: Option<(Idx, usize)>)
        ensures
            res is Some <==> bytes@.len() >= 8,
            res is Some ==> idx_at(bytes@, 0, (res->0).0) && (res->0).1 == 8,
    {
        match Idx::decode_at(bytes, 0) {
            Some(x) => Some((x, 8)),
            None => None,
        }
    }
}

impl TermIdx {
    /// Append the 16 bytes of this pair: term, then index.
    pub fn encode(&self, out: &mut Vec<u8>)
        ensures
            final(out)@ == old(out)@ + enc_term_idx(*self),
    {
        self.term.encode(out);
        self.idx.encode(out);
        assert(out@ =~= old(out)@ + enc_term_idx(*self));
    }

    /// The pair at `pos` of `bytes`.
    pub fn decode_at(bytes: &[u8], pos: usize) -> (ti: Option<TermIdx>)
        ensures
            ti is Some <==> pos + 16 <= bytes@.len(),
            ti is Some ==> term_idx_at(bytes@, pos as int, ti->0),
    {
        if pos > bytes.len() || bytes.len() - pos < 16 {
            return None;
        }
        let term = match Term::decode_at(bytes, pos) {
            Some(t) => t,
            None => return None,
        };
        let idx = match Idx::decode_at(bytes, pos + 8) {
            Some(x) => x,
            None => return None,
        };
        Some(TermIdx { term, idx })
    }

    /// The pair at the front of `bytes`, and the number of bytes it took.
    pub fn decode(bytes: &[u8]) -> (res: Option<(TermIdx, usize)>)
        ensures
            res is Some <==> bytes@.len() >= 16,
            res is Some ==> term_idx_at(bytes@, 0, (res->0).0) && (res->0).1 == 16,
    {
        match TermIdx::decode_at(bytes, 0) {
            Some(x) => Some((x, 16)),
            None => None,
        }
    }
}

impl Entry {
    /// Append the 9 bytes of this entry: term, then command.
    pub fn encode(&self, out: &mut Vec<u8>)
        ensures
            final(out)@ == old(out)@ + enc_entry(*self),
    {
        self.term.encode(out);
        out.push(self.command);
        assert(out@ =~= old(out)@ + enc_entry(*self));
    }

    /// The entry at `pos` of `bytes`.
    pub fn decode_at(bytes: &[u8], pos: usize) -> (e: Option<Entry>)
        ensures
            e is Some <==> pos + 9 <= bytes@.len(),
            e is Some ==> entry_bytes_at(bytes@, pos as int, e->0),
    {
        if pos > bytes.len() || bytes.len() - pos < 9 {
            return None;
        }
        let term = match Term::decode_at(bytes, pos) {
            Some(t) => t,
            None => return None,
        };
        Some(Entry { term, command: bytes[pos + 8] })
    }

    /// The entry at the front of `bytes`, and the number of bytes it took.
    pub fn decode(bytes: &[u8]) -> (res: Option<(Entry, usize)>)
        ensures
            res is Some <==> bytes@.len() >= 9,
            res is Some ==> entry_bytes_at(bytes@, 0, (res->0).0) && (res->0).1 == 9,
    {
        match Entry::decode_at(bytes, 0) {
            Some(x) => Some((x, 9)),
            None => None,
        }
    }
}

impl ServerId {
    /// Append the 16 bytes of this id.
    pub fn encode(&self, out: &mut Vec<u8>)
        ensures
            final(out)@ == old(out)@ + self.0@,
    {
        push_id(out, &self.0);
    }

    /// The id at `pos` of `bytes`.
    pub fn decode_at(bytes: &[u8], pos: usize) -> (id: Option<ServerId>)
        ensures
            id is Some <==> pos + 16 <= bytes@.len(),
            id is Some ==> id_at(bytes@, pos as int, (id->0).0),
    {
        match read_id(bytes, pos) {
            Some(a) => Some(ServerId(a)),
            None => None,
        }
    }

    /// The id at the front of `bytes`, and the number of bytes it took.
    pub fn decode(bytes: &[u8]) -> (res: Option<(ServerId, usize)>)
        ensures
            res is Some <==> bytes@.len() >= 16,
            res is Some ==> id_at(bytes@, 0, ((res->0).0).0) && (res->0).1 == 16,
    {
        match ServerId::decode_at(bytes, 0) {
            Some(x) => Some((x, 16)),
            None => None,
        }
    }
}

impl Header {
    /// Append the 32 bytes of this header: from, then to.
    pub fn encode(&self, out: &mut Vec<u8>)
        ensures
            final(out)@ == old(out)@ + enc_header(*self),
    {
        self.from.encode(out);
        self.to.encode(out);
        assert(out@ =~= old(out)@ + enc_header(*self));
    }

    /// The header at `pos` of `bytes`.
    pub fn decode_at(bytes: &[u8], pos: usize) -> (h: Option<Header>)
        ensures
            h is Some <==> pos + 32 <= bytes@.len(),
            h is Some ==> header_at(bytes@, pos as int, h->0),
    {
        if pos > bytes.len() || bytes.len() - pos < 32 {
            return None;
        }
        let from = match ServerId::decode_at(bytes, pos) {
            Some(x) => x,
            None => return None,
        };
        let to = match ServerId::decode_at(bytes, pos + 16) {
            Some(x) => x,
            None => return None,
        };
        Some(Header { from, to })
    }
}


// ---------------------------------------------------------------------------------------------
// RPCs and packets

pub open spec fn enc_request_vote(rv: RequestVote) -> Seq<u8> {
    u64_be(rv.term.0) + rv.candidate_id.0@ + enc_term_idx(rv.last_log_term_idx)
}

pub open spec fn enc_request_vote_resp(r: RequestVoteResp) -> Seq<u8> {
    u64_be(r.term.0).push(flag_byte(r.vote_granted))
}

/// The entry count is written as 2 bytes, so it wraps past `u16::MAX` entries.
pub open spec fn enc_append_entries(ae: AppendEntriesView) -> Seq<u8> {
    u64_be(ae.term.0) + ae.leader_id.0@ + enc_term_idx(ae.prev_log_term_idx) + u64_be(
        ae.leader_commit_idx.0,
    ) + u16_be(ae.entries.len() as u16) + enc_entries(ae.entries)
}

pub open spec fn enc_append_entries_resp(r: AppendEntriesResp) -> Seq<u8> {
    u64_be(r.term.0).push(flag_byte(r.success)) + enc_term_idx(r.echo_prev_log_term_idx) + u16_be(
        r.entries_cnt,
    )
}

pub open spec fn enc_rpc(r: RpcView) -> Seq<u8> {
    match r {
        RpcView::RequestVote(x) => seq![REQUEST_VOTE_TAG] + enc_request_vote(x),
        RpcView::RequestVoteResp(x) => seq![REQUEST_VOTE_RESP_TAG] + enc_request_vote_resp(x),
        RpcView::AppendEntry(x) => seq![APPEND_ENTRIES_TAG] + enc_append_entries(x),
        RpcView::AppendEntryResp(x) => seq![APPEND_ENTRIES_RESP_TAG] + enc_append_entries_resp(x),
    }
}

pub open spec fn enc_packet(p: PacketView) -> Seq<u8> {
    enc_header(p.header) + enc_rpc(p.rpc)
}

/// Whether `r` survives the wire unchanged: an AppendEntries carries at most `u16::MAX` entries.
pub open spec fn rpc_fits_wire(r: RpcView) -> bool {
    match r {
        RpcView::AppendEntry(x) => x.entries.len() <= u16::MAX,
        _ => true,
    }
}

pub open spec fn request_vote_at(b: Seq<u8>, i: int, rv: RequestVote) -> bool {
    &&& term_at(b, i, rv.term)
    &&& id_at(b, i + 8, rv.candidate_id.0)
    &&& term_idx_at(b, i + 24, rv.last_log_term_idx)
}

pub open spec fn request_vote_resp_at(b: Seq<u8>, i: int, r: RequestVoteResp) -> bool {
    &&& term_at(b, i, r.term)
    &&& i + 9 <= b.len()
    &&& (b[i + 8] != 0) == r.vote_granted
}

pub open spec fn append_entries_at(b: Seq<u8>, i: int, ae: AppendEntriesView) -> bool {
    &&& term_at(b, i, ae.term)
    &&& id_at(b, i + 8, ae.leader_id.0)
    &&& term_idx_at(b, i + 24, ae.prev_log_term_idx)
    &&& idx_at(b, i + 40, ae.leader_commit_idx)
    &&& i + 50 <= b.len()
    &&& u16_at(b, i + 48) as nat == ae.entries.len()
    &&& i + 50 + 9 * ae.entries.len() <= b.len()
    &&& forall|k: int|
        0 <= k < ae.entries.len() ==> entry_bytes_at(b, i + 50 + 9 * k, #[trigger] ae.entries[k])
}

/// Whether `b` holds a whole AppendEntries at `i`: the fixed fields, and as many entries as the
/// count says.
pub open spec fn append_entries_frame(b: Seq<u8>, i: int) -> bool {
    0 <= i && i + 50 <= b.len() && i + 50 + 9 * u16_at(b, i + 48) <= b.len()
}

pub open spec fn append_entries_resp_at(b: Seq<u8>, i: int, r: AppendEntriesResp) -> bool {
    &&& term_at(b, i, r.term)
    &&& i + 27 <= b.len()
    &&& (b[i + 8] != 0) == r.success
    &&& term_idx_at(b, i + 9, r.echo_prev_log_term_idx)
    &&& u16_at(b, i + 25) == r.entries_cnt
}

pub open spec fn rpc_at(b: Seq<u8>, i: int, r: RpcView) -> bool {
    0 <= i < b.len() && match r {
        RpcView::RequestVote(x) => b[i] == REQUEST_VOTE_TAG && request_vote_at(b, i + 1, x),
        RpcView::RequestVoteResp(x) => b[i] == REQUEST_VOTE_RESP_TAG && request_vote_resp_at(
            b,
            i + 1,
            x,
        ),
        RpcView::AppendEntry(x) => b[i] == APPEND_ENTRIES_TAG && append_entries_at(b, i + 1, x),
        RpcView::AppendEntryResp(x) => b[i] == APPEND_ENTRIES_RESP_TAG && append_entries_resp_at(
            b,
            i + 1,
            x,
        ),
    }
}

/// The number of bytes `r` takes on the wire.
pub open spec fn rpc_len(r: RpcView) -> nat {
    match r {
        RpcView::RequestVote(_) => 41,
        RpcView::RequestVoteResp(_) => 10,
        RpcView::AppendEntry(x) => 51 + 9 * x.entries.len(),
        RpcView::AppendEntryResp(_) => 28,
    }
}

/// Whether `b` holds a whole RPC at `i`: a known tag and every byte that the tag calls for.
pub open spec fn rpc_frame(b: Seq<u8>, i: int) -> bool {
    0 <= i < b.len() && {
        ||| b[i] == REQUEST_VOTE_TAG && i + 41 <= b.len()
        ||| b[i] == REQUEST_VOTE_RESP_TAG && i + 10 <= b.len()
        ||| b[i] == APPEND_ENTRIES_TAG && append_entries_frame(b, i + 1)
        ||| b[i] == APPEND_ENTRIES_RESP_TAG && i + 28 <= b.len()
    }
}

pub open spec fn packet_at(b: Seq<u8>, i: int, p: PacketView) -> bool {
    header_at(b, i, p.header) && rpc_at(b, i + 32, p.rpc)
}

pub open spec fn packet_len(p: PacketView) -> nat {
    32 + rpc_len(p.rpc)
}

/// Whether `b` holds a whole packet at `i`.
pub open spec fn packet_frame(b: Seq<u8>, i: int) -> bool {
    0 <= i && i + 32 <= b.len() && rpc_frame(b, i + 32)
}

impl RequestVote {
    pub fn encode(&self, out: &mut Vec<u8>)
        ensures
            final(out)@ == old(out)@ + enc_request_vote(*self),
    {
        self.term.encode(out);
        self.candidate_id.encode(out);
        self.last_log_term_idx.encode(out);
        assert(out@ =~= old(out)@ + enc_request_vote(*self));
    }

    pub fn decode_at(bytes: &[u8], pos: usize) -> (rv: Option<RequestVote>)
        ensures
            rv is Some <==> pos + 40 <= bytes@.len(),
            rv is Some ==> request_vote_at(bytes@, pos as int, rv->0),
    {
        if pos > bytes.len() || bytes.len() - pos < 40 {
            return None;
        }
        let term = match Term::decode_at(bytes, pos) {
            Some(x) => x,
            None => return None,
        };
        let candidate_id = match ServerId::decode_at(bytes, pos + 8) {
            Some(x) => x,
            None => return None,
        };
        let last_log_term_idx = match TermIdx::decode_at(bytes, pos + 24) {
            Some(x) => x,
            None => return None,
        };
        Some(RequestVote { term, candidate_id, last_log_term_idx })
    }

    /// The RequestVote at the front of `bytes`, and the number of bytes it took.
    pub fn decode(bytes: &[u8]) -> (res: Option<(RequestVote, usize)>)
        ensures
            res is Some <==> bytes@.len() >= 40,
            res is Some ==> request_vote_at(bytes@, 0, (res->0).0) && (res->0).1 == 40,
    {
        match RequestVote::decode_at(bytes, 0) {
            Some(x) => Some((x, 40)),
            None => None,
        }
    }
}

impl RequestVoteResp {
    pub fn encode(&self, out: &mut Vec<u8>)
        ensures
            final(out)@ == old(out)@ + enc_request_vote_resp(*self),
    {
        self.term.encode(out);
        out.push(if self.vote_granted { 1u8 } else { 0u8 });
        assert(out@ =~= old(out)@ + enc_request_vote_resp(*self));
    }

    pub fn decode_at(bytes: &[u8], pos: usize) -> (r: Option<RequestVoteResp>)
        ensures
            r is Some <==> pos + 9 <= bytes@.len(),
            r is Some ==> request_vote_resp_at(bytes@, pos as int, r->0),
    {
        if pos > bytes.len() || bytes.len() - pos < 9 {
            return None;
        }
        let term = match Term::decode_at(bytes, pos) {
            Some(x) => x,
            None => return None,
        };
        let vote_granted = bytes[pos + 8] != 0;
        Some(RequestVoteResp { term, vote_granted })
    }

    /// The response at the front of `bytes`, and the number of bytes it took.
    pub fn decode(bytes: &[u8]) -> (res: Option<(RequestVoteResp, usize)>)
        ensures
            res is Some <==> bytes@.len() >= 9,
            res is Some ==> request_vote_resp_at(bytes@, 0, (res->0).0) && (res->0).1 == 9,
    {
        match RequestVoteResp::decode_at(bytes, 0) {
            Some(x) => Some((x, 9)),
            None => None,
        }
    }
}

impl AppendEntries {
    pub fn encode(&self, out: &mut Vec<u8>)
        ensures
            final(out)@ == old(out)@ + enc_append_entries(self@),
    {
        self.term.encode(out);
        self.leader_id.encode(out);
        self.prev_log_term_idx.encode(out);
        self.leader_commit_idx.encode(out);
        // encode a vec of Entries as [ entries_cnt, Entry, Entry, .. ]
        let entries_cnt = self.entries.len() as u16;
        push_u16(out, entries_cnt);
        let ghost head = out@;
        let mut i: usize = 0;
        while i < self.entries.len()
            invariant
                i <= self.entries.len(),
                out@ == head + enc_entries(self.entries@.subrange(0, i as int)),
            decreases self.entries.len() - i,
        {
            self.entries[i].encode(out);
            i = i + 1;
            proof {
                let es = self.entries@.subrange(0, i as int);
                assert(es.drop_last() =~= self.entries@.subrange(0, i - 1 as int));
            }
        }
        assert(self.entries@.subrange(0, self.entries.len() as int) =~= self.entries@);
        assert(out@ =~= old(out)@ + enc_append_entries(self@));
    }

    pub fn decode_at(bytes: &[u8], pos: usize) -> (ae: Option<AppendEntries>)
        ensures
            ae is Some <==> append_entries_frame(bytes@, pos as int),
            ae is Some ==> append_entries_at(bytes@, pos as int, ae->0@),
    {
        if pos > bytes.len() || bytes.len() - pos < 50 {
            return None;
        }
        let term = match Term::decode_at(bytes, pos) {
            Some(x) => x,
            None => return None,
        };
        let leader_id = match ServerId::decode_at(bytes, pos + 8) {
            Some(x) => x,
            None => return None,
        };
        let prev_log_term_idx = match TermIdx::decode_at(bytes, pos + 24) {
            Some(x) => x,
            None => return None,
        };
        let leader_commit_idx = match Idx::decode_at(bytes, pos + 40) {
            Some(x) => x,
            None => return None,
        };
        let entries_cnt = match read_u16(bytes, pos + 48) {
            Some(x) => x,
            None => return None,
        };
        let cnt = entries_cnt as usize;
        if bytes.len() - (pos + 50) < 9 * cnt {
            return None;
        }
        let mut entries: Vec<Entry> = Vec::new();
        let mut k: usize = 0;
        while k < cnt
            invariant
                k <= cnt,
                cnt == u16_at(bytes@, pos + 48),
                pos + 50 + 9 * cnt <= bytes@.len(),
                bytes@.len() == bytes.len(),
                entries@.len() == k,
                forall|j: int|
                    0 <= j < k ==> entry_bytes_at(bytes@, pos + 50 + 9 * j, #[trigger] entries@[j]),
            decreases cnt - k,
        {
            assert(9 * k + 9 <= 9 * cnt) by (nonlinear_arith)
                requires
                    k < cnt,
            ;
            let e = match Entry::decode_at(bytes, pos + 50 + 9 * k) {
                Some(e) => e,
                None => return None,
            };
            entries.push(e);
            k = k + 1;
        }
        Some(AppendEntries { term, leader_id, prev_log_term_idx, leader_commit_idx, entries })
    }

    /// The AppendEntries at the front of `bytes`, and the number of bytes it took.
    pub fn decode(bytes: &[u8]) -> (res: Option<(AppendEntries, usize)>)
        ensures
            res is Some <==> append_entries_frame(bytes@, 0),
            res is Some ==> append_entries_at(bytes@, 0, (res->0).0@) && (res->0).1 == 50 + 9
                * (res->0).0@.entries.len(),
    {
        match AppendEntries::decode_at(bytes, 0) {
            Some(x) => {
                let n = 50 + 9 * x.entries.len();
                Some((x, n))
            },
            None => None,
        }
    }
}

impl AppendEntriesResp {
    pub fn encode(&self, out: &mut Vec<u8>)
        ensures
            final(out)@ == old(out)@ + enc_append_entries_resp(*self),
    {
        self.term.encode(out);
        out.push(if self.success { 1u8 } else { 0u8 });
        self.echo_prev_log_term_idx.encode(out);
        push_u16(out, self.entries_cnt);
        assert(out@ =~= old(out)@ + enc_append_entries_resp(*self));
    }

    pub fn decode_at(bytes: &[u8], pos: usize) -> (r: Option<AppendEntriesResp>)
        ensures
            r is Some <==> pos + 27 <= bytes@.len(),
            r is Some ==> append_entries_resp_at(bytes@, pos as int, r->0),
    {
        if pos > bytes.len() || bytes.len() - pos < 27 {
            return None;
        }
        let term = match Term::decode_at(bytes, pos) {
            Some(x) => x,
            None => return None,
        };
        let success = bytes[pos + 8] != 0;
        let echo_prev_log_term_idx = match TermIdx::decode_at(bytes, pos + 9) {
            Some(x) => x,
            None => return None,
        };
        let entries_cnt = match read_u16(bytes, pos + 25) {
            Some(x) => x,
            None => return None,
        };
        Some(AppendEntriesResp { term, success, echo_prev_log_term_idx, entries_cnt })
    }

    /// The response at the front of `bytes`, and the number of bytes it took.
    pub fn decode(bytes: &[u8]) -> (res: Option<(AppendEntriesResp, usize)>)
        ensures
            res is Some <==> bytes@.len() >= 27,
            res is Some ==> append_entries_resp_at(bytes@, 0, (res->0).0) && (res->0).1 == 27,
    {
        match AppendEntriesResp::decode_at(bytes, 0) {
            Some(x) => Some((x, 27)),
            None => None,
        }
    }
}

impl Rpc {
    /// Append the tag of this RPC and then its fields.
    pub fn encode(&self, out: &mut Vec<u8>)
        ensures
            final(out)@ == old(out)@ + enc_rpc(self@),
    {
        match self {
            Rpc::RequestVote(inner) => {
                out.push(REQUEST_VOTE_TAG);
                inner.encode(out);
            },
            Rpc::RequestVoteResp(inner) => {
                out.push(REQUEST_VOTE_RESP_TAG);
                inner.encode(out);
            },
            Rpc::AppendEntry(inner) => {
                out.push(APPEND_ENTRIES_TAG);
                inner.encode(out);
            },
            Rpc::AppendEntryResp(inner) => {
                out.push(APPEND_ENTRIES_RESP_TAG);
                inner.encode(out);
            },
        }
        assert(out@ =~= old(out)@ + enc_rpc(self@));
    }

    pub fn decode_at(bytes: &[u8], pos: usize) -> (r: Option<(Rpc, usize)>)
        ensures
            r is Some <==> rpc_frame(bytes@, pos as int),
            r is Some ==> rpc_at(bytes@, pos as int, (r->0).0@) && (r->0).1 == rpc_len(
                (r->0).0@,
            ),
    {
        if pos >= bytes.len() {
            return None;
        }
        let tag = bytes[pos];
        if tag == REQUEST_VOTE_TAG {
            match RequestVote::decode_at(bytes, pos + 1) {
                Some(x) => Some((Rpc::RequestVote(x), 41)),
                None => None,
            }
        } else if tag == REQUEST_VOTE_RESP_TAG {
            match RequestVoteResp::decode_at(bytes, pos + 1) {
                Some(x) => Some((Rpc::RequestVoteResp(x), 10)),
                None => None,
            }
        } else if tag == APPEND_ENTRIES_TAG {
            match AppendEntries::decode_at(bytes, pos + 1) {
                Some(x) => {
                    let n = 51 + 9 * x.entries.len();
                    Some((Rpc::AppendEntry(x), n))
                },
                None => None,
            }
        } else if tag == APPEND_ENTRIES_RESP_TAG {
            match AppendEntriesResp::decode_at(bytes, pos + 1) {
                Some(x) => Some((Rpc::AppendEntryResp(x), 28)),
                None => None,
            }
        } else {
            // received unexpected tag
            None
        }
    }

    /// The RPC at the front of `bytes`, and the number of bytes it took.
    pub fn decode(bytes: &[u8]) -> (res: Option<(Rpc, usize)>)
        ensures
            res is Some <==> rpc_frame(bytes@, 0),
            res is Some ==> rpc_at(bytes@, 0, (res->0).0@) && (res->0).1 == rpc_len((res->0).0@),
    {
        Rpc::decode_at(bytes, 0)
    }
}

impl Packet {
    /// Append the header of this packet and then its RPC.
    pub fn encode(&self, out: &mut Vec<u8>)
        ensures
            final(out)@ == old(out)@ + enc_packet(self@),
    {
        self.header.encode(out);
        self.rpc.encode(out);
        assert(out@ =~= old(out)@ + enc_packet(self@));
    }

    /// The bytes of this packet.
    pub fn to_bytes(&self) -> (bytes: Vec<u8>)
        ensures
            bytes@ == enc_packet(self@),
    {
        let mut out: Vec<u8> = Vec::new();
        self.encode(&mut out);
        assert(out@ =~= enc_packet(self@));
        out
    }

    pub fn decode_at(bytes: &[u8], pos: usize) -> (p: Option<(Packet, usize)>)
        ensures
            p is Some <==> packet_frame(bytes@, pos as int),
            p is Some ==> packet_at(bytes@, pos as int, (p->0).0@) && (p->0).1 == packet_len(
                (p->0).0@,
            ),
    {
        if pos > bytes.len() || bytes.len() - pos < 32 {
            return None;
        }
        let header = match Header::decode_at(bytes, pos) {
            Some(h) => h,
            None => return None,
        };
        match Rpc::decode_at(bytes, pos + 32) {
            Some((rpc, n)) => Some((Packet { header, rpc }, 32 + n)),
            None => None,
        }
    }

    /// The packet at the front of `bytes`, and the number of bytes it took.
    pub fn decode(bytes: &[u8]) -> (res: Option<(Packet, usize)>)
        ensures
            res is Some <==> packet_frame(bytes@, 0),
            res is Some ==> packet_at(bytes@, 0, (res->0).0@) && (res->0).1 == packet_len(
                (res->0).0@,
            ),
    {
        Packet::decode_at(bytes, 0)
    }
}


// ---------------------------------------------------------------------------------------------
// Decoding what was encoded

proof fn lemma_request_vote_roundtrip(b: Seq<u8>, i: int, rv: RequestVote)
    requires
        0 <= i,
        i + 40 <= b.len(),
        b.subrange(i, i + 40) == enc_request_vote(rv),
    ensures
        request_vote_at(b, i, rv),
{
    let s = enc_request_vote(rv);
    lemma_sub(b, i, s, 0, 8);
    lemma_sub(b, i, s, 8, 24);
    lemma_sub(b, i, s, 24, 40);
    assert(s.subrange(0, 8) =~= u64_be(rv.term.0));
    assert(s.subrange(8, 24) =~= rv.candidate_id.0@);
    assert(s.subrange(24, 40) =~= enc_term_idx(rv.last_log_term_idx));
    lemma_u64_at(b, i, rv.term.0);
    lemma_term_idx_roundtrip(b, i + 24, rv.last_log_term_idx);
}

proof fn lemma_request_vote_resp_roundtrip(b: Seq<u8>, i: int, r: RequestVoteResp)
    requires
        0 <= i,
        i + 9 <= b.len(),
        b.subrange(i, i + 9) == enc_request_vote_resp(r),
    ensures
        request_vote_resp_at(b, i, r),
{
    let s = enc_request_vote_resp(r);
    lemma_sub(b, i, s, 0, 8);
    assert(s.subrange(0, 8) =~= u64_be(r.term.0));
    lemma_u64_at(b, i, r.term.0);
    assert(b.subrange(i, i + 9)[8] == b[i + 8]);
}

proof fn lemma_append_entries_roundtrip(b: Seq<u8>, i: int, ae: AppendEntriesView)
    requires
        0 <= i,
        ae.entries.len() <= u16::MAX,
        i + 50 + 9 * ae.entries.len() <= b.len(),
        b.subrange(i, i + 50 + 9 * ae.entries.len()) == enc_append_entries(ae),
    ensures
        append_entries_at(b, i, ae),
        append_entries_frame(b, i),
{
    let s = enc_append_entries(ae);
    let n: int = ae.entries.len() as int;
    lemma_enc_entries(ae.entries);
    lemma_sub(b, i, s, 0, 8);
    lemma_sub(b, i, s, 8, 24);
    lemma_sub(b, i, s, 24, 40);
    lemma_sub(b, i, s, 40, 48);
    lemma_sub(b, i, s, 48, 50);
    lemma_sub(b, i, s, 50, 50 + 9 * n);
    assert(s.subrange(0, 8) =~= u64_be(ae.term.0));
    assert(s.subrange(8, 24) =~= ae.leader_id.0@);
    assert(s.subrange(24, 40) =~= enc_term_idx(ae.prev_log_term_idx));
    assert(s.subrange(40, 48) =~= u64_be(ae.leader_commit_idx.0));
    assert(s.subrange(48, 50) =~= u16_be(n as u16));
    assert(s.subrange(50, 50 + 9 * n) =~= enc_entries(ae.entries));
    lemma_u64_at(b, i, ae.term.0);
    lemma_term_idx_roundtrip(b, i + 24, ae.prev_log_term_idx);
    lemma_u64_at(b, i + 40, ae.leader_commit_idx.0);
    lemma_u16_be_roundtrip(n as u16);
    assert forall|k: int| 0 <= k < n implies entry_bytes_at(
        b,
        i + 50 + 9 * k,
        #[trigger] ae.entries[k],
    ) by {
        assert(9 * k + 9 <= 9 * n) by (nonlinear_arith)
            requires
                k < n,
        ;
        lemma_sub(b, i + 50, enc_entries(ae.entries), 9 * k, 9 * k + 9);
        assert(enc_entries(ae.entries).subrange(9 * k, 9 * k + 9) == enc_entry(ae.entries[k]));
        lemma_entry_roundtrip(b, i + 50 + 9 * k, ae.entries[k]);
    }
}

proof fn lemma_append_entries_resp_roundtrip(b: Seq<u8>, i: int, r: AppendEntriesResp)
    requires
        0 <= i,
        i + 27 <= b.len(),
        b.subrange(i, i + 27) == enc_append_entries_resp(r),
    ensures
        append_entries_resp_at(b, i, r),
{
    let s = enc_append_entries_resp(r);
    lemma_sub(b, i, s, 0, 8);
    lemma_sub(b, i, s, 9, 25);
    lemma_sub(b, i, s, 25, 27);
    assert(s.subrange(0, 8) =~= u64_be(r.term.0));
    assert(s.subrange(9, 25) =~= enc_term_idx(r.echo_prev_log_term_idx));
    assert(s.subrange(25, 27) =~= u16_be(r.entries_cnt));
    lemma_u64_at(b, i, r.term.0);
    assert(b.subrange(i, i + 27)[8] == b[i + 8]);
    lemma_term_idx_roundtrip(b, i + 9, r.echo_prev_log_term_idx);
    lemma_u16_be_roundtrip(r.entries_cnt);
}

pub proof fn lemma_enc_rpc_len(r: RpcView)
    ensures
        enc_rpc(r).len() == rpc_len(r),
{
    match r {
        RpcView::AppendEntry(x) => {
            lemma_enc_entries(x.entries);
        },
        _ => {},
    }
}

proof fn lemma_rpc_roundtrip(b: Seq<u8>, i: int, r: RpcView)
    requires
        0 <= i,
        rpc_fits_wire(r),
        i + rpc_len(r) <= b.len(),
        b.subrange(i, i + rpc_len(r)) == enc_rpc(r),
    ensures
        rpc_at(b, i, r),
        rpc_frame(b, i),
{
    lemma_enc_rpc_len(r);
    let s = enc_rpc(r);
    assert(b.subrange(i, i + rpc_len(r))[0] == b[i]);
    lemma_sub(b, i, s, 1, rpc_len(r) as int);
    match r {
        RpcView::RequestVote(x) => {
            assert(s.subrange(1, 41) =~= enc_request_vote(x));
            lemma_request_vote_roundtrip(b, i + 1, x);
        },
        RpcView::RequestVoteResp(x) => {
            assert(s.subrange(1, 10) =~= enc_request_vote_resp(x));
            lemma_request_vote_resp_roundtrip(b, i + 1, x);
        },
        RpcView::AppendEntry(x) => {
            assert(s.subrange(1, rpc_len(r) as int) =~= enc_append_entries(x));
            lemma_append_entries_roundtrip(b, i + 1, x);
        },
        RpcView::AppendEntryResp(x) => {
            assert(s.subrange(1, 28) =~= enc_append_entries_resp(x));
            lemma_append_entries_resp_roundtrip(b, i + 1, x);
        },
    }
}

/// Decoding gives back what was encoded: the bytes of a packet, whatever follows them, hold a
/// whole packet, and that packet.
pub proof fn law_packet_roundtrip(p: PacketView, rest: Seq<u8>)
    requires
        rpc_fits_wire(p.rpc),
    ensures
        enc_packet(p).len() == packet_len(p),
        packet_frame(enc_packet(p) + rest, 0),
        packet_at(enc_packet(p) + rest, 0, p),
{
    lemma_enc_rpc_len(p.rpc);
    let e = enc_packet(p);
    let b = e + rest;
    assert(b.subrange(0, 32) =~= enc_header(p.header));
    lemma_header_roundtrip(b, 0, p.header);
    assert(b.subrange(32, 32 + rpc_len(p.rpc) as int) =~= enc_rpc(p.rpc));
    lemma_rpc_roundtrip(b, 32, p.rpc);
}

/// Decoding gives back what was encoded, for an RPC on its own.
pub proof fn law_rpc_roundtrip(r: RpcView, rest: Seq<u8>)
    requires
        rpc_fits_wire(r),
    ensures
        enc_rpc(r).len() == rpc_len(r),
        rpc_frame(enc_rpc(r) + rest, 0),
        rpc_at(enc_rpc(r) + rest, 0, r),
{
    lemma_enc_rpc_len(r);
    let b = enc_rpc(r) + rest;
    assert(b.subrange(0, rpc_len(r) as int) =~= enc_rpc(r));
    lemma_rpc_roundtrip(b, 0, r);
}

proof fn lemma_id_unique(b: Seq<u8>, i: int, a: [u8; 16], c: [u8; 16])
    requires
        id_at(b, i, a),
        id_at(b, i, c),
    ensures
        a == c,
{
    assert forall|k: int| 0 <= k < 16 implies a[k] == c[k] by {
        assert(a@[k] == b.subrange(i, i + 16)[k]);
        assert(c@[k] == b.subrange(i, i + 16)[k]);
    }
    assert(a =~= c);
}

/// The encoding of `p` written into `b` at `i` is a whole packet there, and parses as `p`.
pub proof fn lemma_packet_at(b: Seq<u8>, i: int, p: PacketView)
    requires
        0 <= i,
        rpc_fits_wire(p.rpc),
        i + packet_len(p) <= b.len(),
        b.subrange(i, i + packet_len(p)) == enc_packet(p),
    ensures
        packet_at(b, i, p),
        packet_frame(b, i),
{
    lemma_enc_rpc_len(p.rpc);
    let e = enc_packet(p);
    lemma_sub(b, i, e, 0, 32);
    assert(e.subrange(0, 32) =~= enc_header(p.header));
    lemma_header_roundtrip(b, i, p.header);
    lemma_sub(b, i, e, 32, packet_len(p) as int);
    assert(e.subrange(32, packet_len(p) as int) =~= enc_rpc(p.rpc));
    lemma_rpc_roundtrip(b, i + 32, p.rpc);
}

/// The bytes of a packet hold only one packet: the parse is unique.
pub proof fn law_packet_parse_unique(b: Seq<u8>, i: int, p: PacketView, q: PacketView)
    requires
        packet_at(b, i, p),
        packet_at(b, i, q),
    ensures
        p == q,
{
    lemma_id_unique(b, i, p.header.from.0, q.header.from.0);
    lemma_id_unique(b, i + 16, p.header.to.0, q.header.to.0);
    assert(p.header == q.header);
    law_rpc_parse_unique(b, i + 32, p.rpc, q.rpc);
}

/// The bytes of an RPC hold only one RPC: the parse is unique.
pub proof fn law_rpc_parse_unique(b: Seq<u8>, i: int, r: RpcView, s: RpcView)
    requires
        rpc_at(b, i, r),
        rpc_at(b, i, s),
    ensures
        r == s,
{
    match (r, s) {
        (RpcView::RequestVote(x), RpcView::RequestVote(y)) => {
            lemma_id_unique(b, i + 9, x.candidate_id.0, y.candidate_id.0);
            assert(x.candidate_id == y.candidate_id);
        },
        (RpcView::AppendEntry(x), RpcView::AppendEntry(y)) => {
            lemma_id_unique(b, i + 9, x.leader_id.0, y.leader_id.0);
            assert(x.leader_id == y.leader_id);
            assert forall|k: int| 0 <= k < x.entries.len() implies x.entries[k] == y.entries[k] by {
                assert(entry_bytes_at(b, i + 1 + 50 + 9 * k, x.entries[k]));
                assert(entry_bytes_at(b, i + 1 + 50 + 9 * k, y.entries[k]));
            }
            assert(x.entries =~= y.entries);
        },
        _ => {},
    }
}

} // verus!
