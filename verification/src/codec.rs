//! The wire-format decoder: big-endian integer fields and length-prefixed
//! transaction records, decoded incrementally from arbitrarily split chunks.
//!
//! One fetch carries one frame: an 8-byte magic sentinel, then (in
//! full-snapshot mode only) a 4-byte size hint, then an 8-byte sequence
//! counter, then zero or more records of a 4-byte length followed by that many
//! payload bytes.  All integers are big-endian.  The decoder consumes an
//! append-only byte stream and never interprets a byte twice; its visible
//! state is a function of the bytes fed so far alone, never of how they were
//! split into chunks.

use vstd::prelude::*;

verus! {

/// The value of a byte sequence read as a big-endian unsigned integer.
pub open spec fn be_val(s: Seq<u8>) -> nat
    decreases s.len(),
{
    if s.len() == 0 {
        0
    } else {
        be_val(s.drop_last()) * 256 + s.last() as nat
    }
}

/// 256^n, the number of distinct values of an n-byte field.
pub open spec fn pow256(n: nat) -> nat
    decreases n,
{
    if n == 0 {
        1
    } else {
        256 * pow256((n - 1) as nat)
    }
}

pub proof fn lemma_pow256_values()
    ensures
        pow256(4) == 0x1_0000_0000nat,
        pow256(7) == 0x100_0000_0000_0000nat,
        pow256(8) == 0x1_0000_0000_0000_0000nat,
{
    assert(pow256(0) == 1);
    assert(pow256(1) == 256);
    assert(pow256(2) == 0x1_0000nat);
    assert(pow256(3) == 0x100_0000nat);
    assert(pow256(4) == 0x1_0000_0000nat);
    assert(pow256(5) == 0x100_0000_0000nat);
    assert(pow256(6) == 0x1_0000_0000_0000nat);
    assert(pow256(7) == 0x100_0000_0000_0000nat);
    assert(pow256(8) == 0x1_0000_0000_0000_0000nat);
}

proof fn lemma_pow256_le(a: nat, b: nat)
    requires
        a <= b,
    ensures
        pow256(a) <= pow256(b),
    decreases b,
{
    if a < b {
        lemma_pow256_le(a, (b - 1) as nat);
    }
}

/// Reads the `n`-byte big-endian unsigned integer at `bytes[start .. start + n]`.
fn read_be(bytes: &Vec<u8>, start: usize, n: usize) -> (r: u64)
    requires
        n <= 8,
        start + n <= bytes@.len(),
    ensures
        r == be_val(bytes@.subrange(start as int, start + n)),
        r < pow256(n as nat),
{
    let blen: usize = bytes.len();
    let mut r: u64 = 0;
    let mut i: usize = 0;
    while i < n
        invariant
            i <= n,
            n <= 8,
            start + n <= blen,
            blen == bytes@.len(),
            r == be_val(bytes@.subrange(start as int, start + i)),
            r < pow256(i as nat),
        decreases n - i,
    {
        proof {
            lemma_pow256_values();
            lemma_pow256_le(i as nat, 7);
            assert(bytes@.subrange(start as int, start + i + 1).drop_last()
                =~= bytes@.subrange(start as int, start + i));
            assert(bytes@.subrange(start as int, start + i + 1).last()
                == bytes@[start + i]);
        }
        r = r * 256 + bytes[start + i] as u64;
        i = i + 1;
    }
    r
}

/// Number of header bytes (before the transaction records) of one fetch:
/// magic, then the size hint in full-snapshot mode only, then the counter.
pub open spec fn header_len(full_mode: bool) -> int {
    if full_mode {
        20
    } else {
        16
    }
}

/// The stream's first 8 bytes have arrived and differ from the all-ones
/// magic sentinel: the whole fetch is invalid.
pub open spec fn spec_magic_bad(h: Seq<u8>) -> bool {
    h.len() >= 8 && be_val(h.subrange(0, 8)) != u64::MAX
}

/// The size hint decodable from stream prefix `h`, if it has arrived.
pub open spec fn spec_size_hint(h: Seq<u8>, full_mode: bool) -> Option<u32> {
    if full_mode && h.len() >= 12 {
        Some(be_val(h.subrange(8, 12)) as u32)
    } else {
        None
    }
}

/// The sequence counter decodable from stream prefix `h`, if it has arrived.
pub open spec fn spec_counter(h: Seq<u8>, full_mode: bool) -> Option<u64> {
    if h.len() >= header_len(full_mode) {
        Some(be_val(h.subrange(header_len(full_mode) - 8, header_len(full_mode))) as u64)
    } else {
        None
    }
}

/// The complete length-prefixed records at the front of `s`; a trailing
/// record whose length field or payload has not fully arrived is not yet one.
pub open spec fn spec_records(s: Seq<u8>) -> Seq<Seq<u8>>
    decreases s.len(),
{
    if s.len() < 4 {
        Seq::empty()
    } else {
        let n = be_val(s.subrange(0, 4)) as int;
        if s.len() < 4 + n {
            Seq::empty()
        } else {
            seq![s.subrange(4, 4 + n)] + spec_records(s.skip(4 + n))
        }
    }
}

/// `s` does not hold a complete record yet.
pub open spec fn record_incomplete(s: Seq<u8>) -> bool {
    s.len() < 4 || s.len() < 4 + be_val(s.subrange(0, 4))
}

/// All transaction payloads decodable from stream prefix `h`.
pub open spec fn spec_txs(h: Seq<u8>, full_mode: bool) -> Seq<Seq<u8>> {
    if h.len() >= header_len(full_mode) {
        spec_records(h.skip(header_len(full_mode)))
    } else {
        Seq::empty()
    }
}

/// The views of a list of byte vectors.
pub open spec fn views_of(ts: Seq<Vec<u8>>) -> Seq<Seq<u8>> {
    ts.map_values(|t: Vec<u8>| t@)
}

/// `emitted` are exactly the records consumed from the record region `whole`,
/// and `rest` is its unconsumed tail — stated so that it keeps holding
/// however the stream is extended.
pub open spec fn records_decompose(whole: Seq<u8>, emitted: Seq<Seq<u8>>, rest: Seq<u8>) -> bool {
    forall|u: Seq<u8>| #[trigger] spec_records(whole + u) == emitted + spec_records(rest + u)
}

proof fn lemma_decompose_init(s: Seq<u8>)
    ensures
        records_decompose(s, Seq::empty(), s),
{
    assert forall|u: Seq<u8>| #[trigger] spec_records(s + u)
        == Seq::<Seq<u8>>::empty() + spec_records(s + u) by {
        assert(Seq::<Seq<u8>>::empty() + spec_records(s + u) =~= spec_records(s + u));
    }
}

proof fn lemma_decompose_feed(whole: Seq<u8>, emitted: Seq<Seq<u8>>, rest: Seq<u8>, chunk: Seq<u8>)
    requires
        records_decompose(whole, emitted, rest),
    ensures
        records_decompose(whole + chunk, emitted, rest + chunk),
{
    assert forall|u: Seq<u8>| #[trigger] spec_records((whole + chunk) + u)
        == emitted + spec_records((rest + chunk) + u) by {
        assert((whole + chunk) + u =~= whole + (chunk + u));
        assert((rest + chunk) + u =~= rest + (chunk + u));
        assert(spec_records(whole + (chunk + u)) == emitted + spec_records(rest + (chunk + u)));
    }
}

proof fn lemma_decompose_consume(whole: Seq<u8>, emitted: Seq<Seq<u8>>, rest: Seq<u8>)
    requires
        records_decompose(whole, emitted, rest),
        rest.len() >= 4,
        rest.len() >= 4 + be_val(rest.subrange(0, 4)),
    ensures
        records_decompose(
            whole,
            emitted.push(rest.subrange(4, 4 + be_val(rest.subrange(0, 4)) as int)),
            rest.skip(4 + be_val(rest.subrange(0, 4)) as int),
        ),
{
    let n = be_val(rest.subrange(0, 4)) as int;
    let rec = rest.subrange(4, 4 + n);
    assert forall|u: Seq<u8>| #[trigger] spec_records(whole + u)
        == emitted.push(rec) + spec_records(rest.skip(4 + n) + u) by {
        let s = rest + u;
        assert(s.subrange(0, 4) =~= rest.subrange(0, 4));
        assert(s.subrange(4, 4 + n) =~= rec);
        assert(s.skip(4 + n) =~= rest.skip(4 + n) + u);
        assert(spec_records(s) == seq![rec] + spec_records(rest.skip(4 + n) + u));
        assert(spec_records(whole + u) == emitted + spec_records(rest + u));
        assert(emitted + (seq![rec] + spec_records(rest.skip(4 + n) + u))
            =~= emitted.push(rec) + spec_records(rest.skip(4 + n) + u));
    }
}

proof fn lemma_decompose_finish(whole: Seq<u8>, emitted: Seq<Seq<u8>>, rest: Seq<u8>)
    requires
        records_decompose(whole, emitted, rest),
        record_incomplete(rest),
    ensures
        spec_records(whole) == emitted,
{
    assert(whole + Seq::<u8>::empty() =~= whole);
    assert(rest + Seq::<u8>::empty() =~= rest);
    assert(spec_records(whole + Seq::<u8>::empty())
        == emitted + spec_records(rest + Seq::<u8>::empty()));
    assert(spec_records(rest) =~= Seq::<Seq<u8>>::empty());
    assert(emitted + Seq::<Seq<u8>>::empty() =~= emitted);
}

/// If a suffix of `buf` equals a suffix of `h`, their aligned slices agree.
proof fn lemma_suffix_slice(buf: Seq<u8>, pos: int, h: Seq<u8>, c: int, k: int)
    requires
        0 <= pos <= buf.len(),
        0 <= c <= h.len(),
        buf.skip(pos) == h.skip(c),
        0 <= k <= buf.len() - pos,
    ensures
        buf.subrange(pos, pos + k) == h.subrange(c, c + k),
{
    let bs = buf.skip(pos);
    let hs = h.skip(c);
    assert(bs.len() == buf.len() - pos);
    assert(hs.len() == h.len() - c);
    assert(buf.subrange(pos, pos + k) =~= h.subrange(c, c + k)) by {
        assert forall|i: int| 0 <= i < k implies #[trigger] buf[pos + i] == h[c + i] by {
            assert(bs[i] == buf[pos + i]);
            assert(hs[i] == h[c + i]);
            assert(bs[i] == hs[i]);
        }
    }
}

/// Consuming `k` bytes keeps a suffix of `buf` aligned with a suffix of `h`.
proof fn lemma_suffix_advance(buf: Seq<u8>, pos: int, h: Seq<u8>, c: int, k: int)
    requires
        0 <= pos,
        0 <= k,
        pos + k <= buf.len(),
        0 <= c <= h.len(),
        buf.skip(pos) == h.skip(c),
    ensures
        buf.skip(pos + k) == h.skip(c + k),
{
    assert(buf.skip(pos).len() == buf.len() - pos);
    assert(h.skip(c).len() == h.len() - c);
    assert(c + k <= h.len());
    vstd::seq_lib::lemma_seq_skip_of_skip(buf, pos, k);
    vstd::seq_lib::lemma_seq_skip_of_skip(h, c, k);
    assert(buf.skip(pos).skip(k) == h.skip(c).skip(k));
}

/// A slice within the left part of a concatenation is unchanged by appending.
proof fn lemma_prefix_slice_append(s: Seq<u8>, t: Seq<u8>, a: int, b: int)
    requires
        0 <= a <= b <= s.len(),
    ensures
        (s + t).subrange(a, b) == s.subrange(a, b),
{
    assert((s + t).subrange(a, b) =~= s.subrange(a, b));
}

/// Skipping within the left part of a concatenation.
proof fn lemma_skip_append(s: Seq<u8>, t: Seq<u8>, k: int)
    requires
        0 <= k <= s.len(),
    ensures
        (s + t).skip(k) == s.skip(k) + t,
{
    assert((s + t).skip(k) =~= s.skip(k) + t);
}

/// Why one fetch was aborted: the stream's magic sentinel was wrong, so the
/// bytes are not a frame at all.
#[derive(Clone, Copy, Debug, PartialEq, Eq, Structural)]
pub enum DecodeError {
    InvalidMagic,
}

#[derive(Clone, Copy, PartialEq, Eq, Structural)]
enum Phase {
    Magic,
    SizeHint,
    Counter,
    Records,
    Failed,
}

/// Incremental decoder of one fetch's frame.  Feed it the body's chunks in
/// arrival order; it hands back each transaction payload as soon as the
/// payload is complete, and exposes the decoded size hint and sequence
/// counter once their bytes have arrived.
pub struct Decoder {
    full_mode: bool,
    phase: Phase,
    buf: Vec<u8>,
    pos: usize,
    size_hint: Option<u32>,
    counter: Option<u64>,
    history: Ghost<Seq<u8>>,
    emitted: Ghost<Seq<Seq<u8>>>,
}

impl Decoder {
    /// All bytes ever fed to this decoder, in order.
    pub closed spec fn history(self) -> Seq<u8> {
        self.history@
    }

    /// Whether this decoder expects the full-snapshot header (with size hint).
    pub closed spec fn full_mode(self) -> bool {
        self.full_mode
    }

    /// All transaction payloads handed out so far, in stream order.
    pub closed spec fn emitted(self) -> Seq<Seq<u8>> {
        self.emitted@
    }

    /// The decoded sequence counter, once its bytes have arrived.
    pub closed spec fn counter_spec(self) -> Option<u64> {
        self.counter
    }

    /// The decoded size hint, once its bytes have arrived (full mode only).
    pub closed spec fn size_hint_spec(self) -> Option<u32> {
        self.size_hint
    }

    /// The decoder has met a wrong magic sentinel and aborted.
    pub closed spec fn failed(self) -> bool {
        self.phase == Phase::Failed
    }

    spec fn consumed(self) -> int {
        self.history@.len() - (self.buf@.len() - self.pos)
    }

    spec fn unread(self) -> Seq<u8> {
        self.buf@.skip(self.pos as int)
    }

    /// The decoder's invariant: its buffer is the unconsumed suffix of the
    /// byte history, and everything it exposes is exactly what the history
    /// prefix decodes to.
    pub closed spec fn wf(self) -> bool {
        let h = self.history@;
        let hl = header_len(self.full_mode);
        &&& self.pos <= self.buf@.len()
        &&& 0 <= self.consumed() <= h.len()
        &&& self.unread() == h.skip(self.consumed())
        &&& match self.phase {
            Phase::Magic => {
                &&& self.consumed() == 0
                &&& h.len() < 8
                &&& self.size_hint is None
                &&& self.counter is None
                &&& self.emitted@ == Seq::<Seq<u8>>::empty()
            },
            Phase::SizeHint => {
                &&& self.full_mode
                &&& self.consumed() == 8
                &&& h.len() < 12
                &&& be_val(h.subrange(0, 8)) == u64::MAX
                &&& self.size_hint is None
                &&& self.counter is None
                &&& self.emitted@ == Seq::<Seq<u8>>::empty()
            },
            Phase::Counter => {
                &&& self.consumed() == hl - 8
                &&& h.len() < hl
                &&& h.len() >= 8
                &&& be_val(h.subrange(0, 8)) == u64::MAX
                &&& self.size_hint == spec_size_hint(h, self.full_mode)
                &&& self.counter is None
                &&& self.emitted@ == Seq::<Seq<u8>>::empty()
            },
            Phase::Records => {
                &&& hl <= self.consumed()
                &&& h.len() >= hl
                &&& be_val(h.subrange(0, 8)) == u64::MAX
                &&& self.size_hint == spec_size_hint(h, self.full_mode)
                &&& self.counter == spec_counter(h, self.full_mode)
                &&& records_decompose(h.skip(hl), self.emitted@, self.unread())
                &&& record_incomplete(self.unread())
                &&& self.emitted@ == spec_txs(h, self.full_mode)
            },
            Phase::Failed => {
                &&& spec_magic_bad(h)
                &&& self.size_hint is None
                &&& self.counter is None
                &&& self.emitted@ == Seq::<Seq<u8>>::empty()
            },
        }
    }

    /// A fresh decoder for one fetch: full-snapshot mode decodes a size hint
    /// between the magic and the counter, incremental mode does not.
    pub fn new(full_mode: bool) -> (d: Decoder)
        ensures
            d.wf(),
            !d.failed(),
            d.full_mode() == full_mode,
            d.history() == Seq::<u8>::empty(),
            d.emitted() == Seq::<Seq<u8>>::empty(),
            d.counter_spec() is None,
            d.size_hint_spec() is None,
    {
        Decoder {
            full_mode,
            phase: Phase::Magic,
            buf: Vec::new(),
            pos: 0,
            size_hint: None,
            counter: None,
            history: Ghost(Seq::empty()),
            emitted: Ghost(Seq::empty()),
        }
    }

    /// The decoded sequence counter, or `None` while its bytes are pending.
    pub fn counter(&self) -> (r: Option<u64>)
        ensures
            r == self.counter_spec(),
    {
        self.counter
    }

    /// The decoded sequence counter, with the reserved all-ones sentinel
    /// standing in while it is still pending — the shape the synchronization
    /// loop consumes, since the sentinel already means "nothing to fetch".
    pub fn counter_or_undefined(&self) -> (r: u64)
        ensures
            r == (match self.counter_spec() {
                Some(c) => c,
                None => u64::MAX,
            }),
    {
        match self.counter {
            Some(c) => c,
            None => u64::MAX,
        }
    }

    /// The decoded size hint, or `None` while pending or in incremental mode.
    pub fn size_hint(&self) -> (r: Option<u32>)
        ensures
            r == self.size_hint_spec(),
    {
        self.size_hint
    }

    /// Appends one chunk of the stream and decodes as far as the bytes reach:
    /// header fields in their fixed order, then every transaction record that
    /// is now complete, which is returned in stream order.  Fails exactly
    /// when the stream's first 8 bytes complete and differ from the magic
    /// sentinel, with nothing else decoded.
    pub fn feed(&mut self, chunk: &[u8]) -> (r: Result<Vec<Vec<u8>>, DecodeError>)
        requires
            old(self).wf(),
            !old(self).failed(),
        ensures
            final(self).wf(),
            final(self).full_mode() == old(self).full_mode(),
            final(self).history() == old(self).history() + chunk@,
            match r {
                Ok(txs) => ({
                    &&& !final(self).failed()
                    &&& !spec_magic_bad(final(self).history())
                    &&& final(self).emitted() == old(self).emitted() + views_of(txs@)
                    &&& final(self).emitted() == spec_txs(final(self).history(), old(self).full_mode())
                    &&& final(self).counter_spec() == spec_counter(final(self).history(), old(self).full_mode())
                    &&& final(self).size_hint_spec() == spec_size_hint(final(self).history(), old(self).full_mode())
                }),
                Err(e) => ({
                    &&& final(self).failed()
                    &&& spec_magic_bad(final(self).history())
                    &&& old(self).history().len() < 8
                    &&& e == DecodeError::InvalidMagic
                    &&& final(self).emitted() == Seq::<Seq<u8>>::empty()
                    &&& final(self).counter_spec() is None
                    &&& final(self).size_hint_spec() is None
                }),
            },
    {
        let ghost h0 = self.history@;
        let ghost c0 = self.consumed();
        let ghost buf0 = self.buf@;
        let ghost pos0 = self.pos as int;
        append_slice(&mut self.buf, chunk);
        proof {
            self.history@ = h0 + chunk@;
            lemma_skip_append(buf0, chunk@, pos0);
            lemma_skip_append(h0, chunk@, c0);
            if h0.len() >= 8 {
                lemma_prefix_slice_append(h0, chunk@, 0, 8);
            }
            if h0.len() >= 12 {
                lemma_prefix_slice_append(h0, chunk@, 8, 12);
            }
            if h0.len() >= header_len(self.full_mode) {
                lemma_prefix_slice_append(
                    h0,
                    chunk@,
                    header_len(self.full_mode) - 8,
                    header_len(self.full_mode),
                );
            }
            assert(self.consumed() == c0);
            assert(self.unread() == buf0.skip(pos0) + chunk@);
            assert(self.unread() == self.history@.skip(self.consumed()));
            if self.phase == Phase::Records {
                lemma_decompose_feed(
                    h0.skip(header_len(self.full_mode)),
                    self.emitted@,
                    h0.skip(c0),
                    chunk@,
                );
                lemma_skip_append(h0, chunk@, header_len(self.full_mode));
                assert(records_decompose(
                    self.history@.skip(header_len(self.full_mode)),
                    self.emitted@,
                    self.unread(),
                ));
            }
        }
        let ghost h = self.history@;
        let mut out: Vec<Vec<u8>> = Vec::new();

        // Magic sentinel: 8 bytes, validated the moment they are complete.
        if self.phase == Phase::Magic {
            if self.buf.len() - self.pos < 8 {
                proof {
                    assert(self.emitted@ =~= spec_txs(h, self.full_mode));
                    assert(views_of(out@) =~= Seq::<Seq<u8>>::empty());
                    assert(self.emitted@ + views_of(out@) =~= self.emitted@);
                }
                return Ok(out);
            }
            let v: u64 = read_be(&self.buf, self.pos, 8);
            proof {
                lemma_suffix_slice(self.buf@, self.pos as int, h, self.consumed(), 8);
                lemma_suffix_advance(self.buf@, self.pos as int, h, self.consumed(), 8);
            }
            self.pos = self.pos + 8;
            if v != u64::MAX {
                self.phase = Phase::Failed;
                return Err(DecodeError::InvalidMagic);
            }
            self.phase = if self.full_mode {
                Phase::SizeHint
            } else {
                Phase::Counter
            };
        }

        // Size hint: 4 bytes, full-snapshot mode only.
        if self.phase == Phase::SizeHint {
            if self.buf.len() - self.pos < 4 {
                proof {
                    assert(views_of(out@) =~= Seq::<Seq<u8>>::empty());
                    assert(self.emitted@ + views_of(out@) =~= self.emitted@);
                }
                return Ok(out);
            }
            let v: u64 = read_be(&self.buf, self.pos, 4);
            proof {
                lemma_suffix_slice(self.buf@, self.pos as int, h, self.consumed(), 4);
                lemma_suffix_advance(self.buf@, self.pos as int, h, self.consumed(), 4);
                lemma_pow256_values();
            }
            self.size_hint = Some(v as u32);
            self.pos = self.pos + 4;
            self.phase = Phase::Counter;
        }

        // Sequence counter: 8 bytes.
        if self.phase == Phase::Counter {
            if self.buf.len() - self.pos < 8 {
                proof {
                    assert(views_of(out@) =~= Seq::<Seq<u8>>::empty());
                    assert(self.emitted@ + views_of(out@) =~= self.emitted@);
                }
                return Ok(out);
            }
            let v: u64 = read_be(&self.buf, self.pos, 8);
            proof {
                lemma_suffix_slice(self.buf@, self.pos as int, h, self.consumed(), 8);
                lemma_suffix_advance(self.buf@, self.pos as int, h, self.consumed(), 8);
            }
            self.counter = Some(v);
            self.pos = self.pos + 8;
            self.phase = Phase::Records;
            proof {
                assert(self.unread() == h.skip(header_len(self.full_mode)));
                lemma_decompose_init(h.skip(header_len(self.full_mode)));
            }
        }

        // Transaction records: a 4-byte length, then that many payload bytes,
        // consumed only once the whole record is present.
        let ghost hl = header_len(self.full_mode);
        let ghost m = self.full_mode;
        let ghost base = self.emitted@;
        loop
            invariant_except_break
                self.phase == Phase::Records,
                self.full_mode == m,
                self.history@ == h,
                self.pos <= self.buf@.len(),
                hl == header_len(m),
                hl <= self.consumed() <= h.len(),
                self.unread() == h.skip(self.consumed()),
                h.len() >= hl,
                be_val(h.subrange(0, 8)) == u64::MAX,
                self.size_hint == spec_size_hint(h, m),
                self.counter == spec_counter(h, m),
                records_decompose(h.skip(hl), self.emitted@, self.unread()),
                self.emitted@ == base + views_of(out@),
            ensures
                self.phase == Phase::Records,
                self.full_mode == m,
                self.history@ == h,
                self.pos <= self.buf@.len(),
                hl <= self.consumed() <= h.len(),
                self.unread() == h.skip(self.consumed()),
                h.len() >= hl,
                be_val(h.subrange(0, 8)) == u64::MAX,
                self.size_hint == spec_size_hint(h, m),
                self.counter == spec_counter(h, m),
                records_decompose(h.skip(hl), self.emitted@, self.unread()),
                self.emitted@ == base + views_of(out@),
                record_incomplete(self.unread()),
            decreases self.buf@.len() - self.pos,
        {
            let avail: usize = self.buf.len() - self.pos;
            if avail < 4 {
                break;
            }
            let len64: u64 = read_be(&self.buf, self.pos, 4);
            proof {
                lemma_suffix_slice(self.buf@, self.pos as int, h, self.consumed(), 4);
                assert(self.unread().subrange(0, 4)
                    =~= self.buf@.subrange(self.pos as int, self.pos + 4));
                lemma_pow256_values();
            }
            let n: usize = len64 as usize;
            if avail - 4 < n {
                proof {
                    assert(self.unread().len() == avail);
                }
                break;
            }
            let tx: Vec<u8> = copy_range(&self.buf, self.pos + 4, n);
            let ghost txv = tx@;
            proof {
                lemma_suffix_advance(self.buf@, self.pos as int, h, self.consumed(), 4);
                lemma_suffix_slice(self.buf@, self.pos + 4, h, self.consumed() + 4, n as int);
                let rest = self.unread();
                assert(rest.subrange(4, 4 + n)
                    =~= self.buf@.subrange(self.pos + 4, self.pos + 4 + n)) by {
                    lemma_suffix_slice(self.buf@, self.pos as int, h, self.consumed(), avail as int);
                    assert forall|i: int| 0 <= i < n implies
                        #[trigger] rest.subrange(4, 4 + n)[i] == self.buf@[self.pos + 4 + i] by {
                        assert(rest[4 + i] == self.buf@[self.pos + 4 + i]);
                    }
                }
                assert(txv =~= rest.subrange(4, 4 + n));
                lemma_decompose_consume(h.skip(hl), self.emitted@, rest);
                assert(rest.skip(0) =~= rest);
                lemma_suffix_advance(rest, 0, h, self.consumed(), 4 + n as int);
                lemma_suffix_advance(self.buf@, self.pos as int, h, self.consumed(), 4 + n as int);
            }
            let ghost rest0 = self.unread();
            self.pos = self.pos + 4 + n;
            proof {
                self.emitted@ = self.emitted@.push(txv);
                assert(self.unread() == h.skip(self.consumed()));
                assert(self.unread() == rest0.skip(4 + n as int));
            }
            out.push(tx);
            proof {
                assert(views_of(out@) =~= views_of(out@.drop_last()).push(txv));
                assert(self.emitted@ =~= base + views_of(out@));
            }
        }
        proof {
            lemma_decompose_finish(h.skip(hl), self.emitted@, self.unread());
            assert(self.emitted@ == spec_txs(h, m));
        }
        Ok(out)
    }
}

/// Appends every byte of `s` to `v`, in order.
pub(crate) fn append_slice(v: &mut Vec<u8>, s: &[u8])
    ensures
        final(v)@ == old(v)@ + s@,
{
    let mut k: usize = 0;
    while k < s.len()
        invariant
            k <= s@.len(),
            v@ == old(v)@ + s@.take(k as int),
        decreases s@.len() - k,
    {
        let b: u8 = s[k];
        v.push(b);
        proof {
            assert(old(v)@ + s@.take(k + 1) =~= (old(v)@ + s@.take(k as int)).push(s@[k as int]));
        }
        k = k + 1;
    }
    proof {
        assert(old(v)@ + s@.take(s@.len() as int) =~= old(v)@ + s@);
    }
}

/// Copies `v[start .. start + n]` into a fresh vector.
fn copy_range(v: &Vec<u8>, start: usize, n: usize) -> (r: Vec<u8>)
    requires
        start + n <= v@.len(),
    ensures
        r@ == v@.subrange(start as int, start + n),
{
    let vlen: usize = v.len();
    let mut r: Vec<u8> = Vec::new();
    let mut j: usize = 0;
    while j < n
        invariant
            j <= n,
            start + n <= vlen,
            vlen == v@.len(),
            r@ == v@.subrange(start as int, start + j),
        decreases n - j,
    {
        r.push(v[start + j]);
        proof {
            assert(v@.subrange(start as int, start + j + 1)
                =~= v@.subrange(start as int, start + j).push(v@[start + j]));
        }
        j = j + 1;
    }
    r
}

/// Chunk-boundary independence: what a decoder has delivered — payloads,
/// counter, size hint, and whether the stream was rejected — depends only on
/// the concatenation of the chunks fed to it, never on where the stream was
/// split.  Two decoders in the same mode that have seen the same bytes agree
/// on everything, however differently those bytes were chunked.
pub proof fn lemma_chunk_boundary_independence(a: Decoder, b: Decoder)
    requires
        a.wf(),
        b.wf(),
        a.full_mode() == b.full_mode(),
        a.history() == b.history(),
    ensures
        a.failed() == b.failed(),
        a.emitted() == b.emitted(),
        a.counter_spec() == b.counter_spec(),
        a.size_hint_spec() == b.size_hint_spec(),
{
    lemma_decoder_state_of_history(a);
    lemma_decoder_state_of_history(b);
}

/// A well-formed decoder's visible state is a function of its byte history:
/// exactly the fields and payloads that the history prefix decodes to.
pub proof fn lemma_decoder_state_of_history(d: Decoder)
    requires
        d.wf(),
    ensures
        d.failed() == spec_magic_bad(d.history()),
        !d.failed() ==> d.emitted() == spec_txs(d.history(), d.full_mode()),
        !d.failed() ==> d.counter_spec() == spec_counter(d.history(), d.full_mode()),
        !d.failed() ==> d.size_hint_spec() == spec_size_hint(d.history(), d.full_mode()),
        d.failed() ==> d.emitted() == Seq::<Seq<u8>>::empty()
            && d.counter_spec() is None && d.size_hint_spec() is None,
{
    let h = d.history();
    match d.phase {
        Phase::Magic => {
            assert(d.emitted() =~= spec_txs(h, d.full_mode()));
        },
        Phase::SizeHint => {
            assert(d.emitted() =~= spec_txs(h, d.full_mode()));
        },
        Phase::Counter => {
            assert(d.emitted() =~= spec_txs(h, d.full_mode()));
        },
        Phase::Records => {},
        Phase::Failed => {},
    }
}

} // verus!
