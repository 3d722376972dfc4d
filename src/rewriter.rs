//! A streaming rewriter that replaces every `https://` in a byte stream with
//! `http://`, including occurrences split across chunk boundaries.

use vstd::prelude::*;
use bytes::{Buf, BufMut, Bytes, BytesMut};

verus! {

#[verifier::external_type_specification]
#[verifier::external_body]
pub struct ExBytes(Bytes);

/// The bytes held by a `Bytes` value.
pub uninterp spec fn bytes_held(b: Bytes) -> Seq<u8>;

#[verifier::external_type_specification]
#[verifier::external_body]
pub struct ExBytesMut(BytesMut);

/// The bytes held by a `BytesMut` buffer.
pub uninterp spec fn buffer_held(b: BytesMut) -> Seq<u8>;

/// Relies on `Buf::has_remaining` for `Bytes`: whether any byte is left.
#[verifier::external_body]
fn has_remaining(b: &Bytes) -> (r: bool)
    ensures
        r == (bytes_held(*b).len() > 0),
{
    b.has_remaining()
}

/// Relies on `Buf::get_u8` for `Bytes`: takes the first byte off the front.
/// It panics when no byte is left, which `requires` rules out.
#[verifier::external_body]
fn get_u8(b: &mut Bytes) -> (r: u8)
    requires
        bytes_held(*old(b)).len() > 0,
    ensures
        r == bytes_held(*old(b))[0],
        bytes_held(*final(b)) == bytes_held(*old(b)).skip(1),
{
    b.get_u8()
}

/// Relies on `BytesMut::with_capacity`: an empty buffer.
#[verifier::external_body]
fn new_buffer(capacity: usize) -> (r: BytesMut)
    ensures
        buffer_held(r) == Seq::<u8>::empty(),
{
    BytesMut::with_capacity(capacity)
}

/// Relies on `BufMut::put_u8` for `BytesMut`: appends one byte.
#[verifier::external_body]
fn put_byte(b: &mut BytesMut, c: u8)
    ensures
        buffer_held(*final(b)) == buffer_held(*old(b)).push(c),
{
    b.put_u8(c)
}

/// Relies on `BytesMut::split`: hands out all held bytes and leaves the
/// buffer empty.
#[verifier::external_body]
fn split_all(b: &mut BytesMut) -> (r: BytesMut)
    ensures
        buffer_held(r) == buffer_held(*old(b)),
        buffer_held(*final(b)) == Seq::<u8>::empty(),
{
    b.split()
}

/// Relies on `BytesMut::unsplit`: appends the bytes of `other`.
#[verifier::external_body]
fn append_buffer(b: &mut BytesMut, other: BytesMut)
    ensures
        buffer_held(*final(b)) == buffer_held(*old(b)) + buffer_held(other),
{
    b.unsplit(other)
}

/// Relies on `BytesMut::freeze`: the same bytes, now immutable.
#[verifier::external_body]
fn freeze(b: BytesMut) -> (r: Bytes)
    ensures
        bytes_held(r) == buffer_held(b),
{
    b.freeze()
}

/// Relies on `Bytes::len`: the number of held bytes.
#[verifier::external_body]
pub(crate) fn bytes_len(b: &Bytes) -> (r: usize)
    ensures
        r == bytes_held(*b).len(),
{
    b.len()
}

pub const BYTE_H: u8 = 104;
pub const BYTE_T: u8 = 116;
pub const BYTE_P: u8 = 112;
pub const BYTE_S: u8 = 115;
pub const BYTE_COLON: u8 = 58;
pub const BYTE_SLASH: u8 = 47;

/// The secure scheme prefix, `https://`.
pub open spec fn secure_prefix() -> Seq<u8> {
    seq![BYTE_H, BYTE_T, BYTE_T, BYTE_P, BYTE_S, BYTE_COLON, BYTE_SLASH, BYTE_SLASH]
}

/// The plaintext scheme prefix, `http://`.
pub open spec fn plain_prefix() -> Seq<u8> {
    seq![BYTE_H, BYTE_T, BYTE_T, BYTE_P, BYTE_COLON, BYTE_SLASH, BYTE_SLASH]
}

/// Whether `s` holds `https://` at position `i`.
pub open spec fn secure_at(s: Seq<u8>, i: int) -> bool {
    0 <= i && i + 8 <= s.len() && s.subrange(i, i + 8) == secure_prefix()
}

/// Every `https://` in `s` replaced by `http://`, scanning left to right, so
/// that occurrences never overlap.
pub open spec fn downgraded(s: Seq<u8>) -> Seq<u8>
    decreases s.len(),
{
    if s.len() == 0 {
        Seq::empty()
    } else if secure_at(s, 0) {
        plain_prefix() + downgraded(s.skip(8))
    } else {
        seq![s[0]] + downgraded(s.skip(1))
    }
}

/// How far a match of `https://` has progressed.
#[derive(Debug, PartialEq, Eq, Clone, Copy, Structural)]
pub enum State {
    NotInScheme,
    HaveH,
    HaveHT,
    HaveHTT,
    HaveHTTP,
    HaveHTTPS,
    HaveHTTPSC,
    HaveHTTPSCS,
}

impl State {
    /// The number of bytes of `https://` matched so far.
    pub open spec fn matched(self) -> nat {
        match self {
            State::NotInScheme => 0,
            State::HaveH => 1,
            State::HaveHT => 2,
            State::HaveHTT => 3,
            State::HaveHTTP => 4,
            State::HaveHTTPS => 5,
            State::HaveHTTPSC => 6,
            State::HaveHTTPSCS => 7,
        }
    }
}

/// The state reached from `state` on byte `c` when `c` extends the match by
/// one byte short of completing it.
pub open spec fn advance(state: State, c: u8) -> Option<State> {
    match state {
        State::HaveH => if c == BYTE_T { Some(State::HaveHT) } else { None },
        State::HaveHT => if c == BYTE_T { Some(State::HaveHTT) } else { None },
        State::HaveHTT => if c == BYTE_P { Some(State::HaveHTTP) } else { None },
        State::HaveHTTP => if c == BYTE_S { Some(State::HaveHTTPS) } else { None },
        State::HaveHTTPS => if c == BYTE_COLON { Some(State::HaveHTTPSC) } else { None },
        State::HaveHTTPSC => if c == BYTE_SLASH { Some(State::HaveHTTPSCS) } else { None },
        _ => None,
    }
}

/// What a rewriter holds: its match state, the pending bytes of a match in
/// progress, and the output decided so far.
pub ghost struct RewriterModel {
    pub state: State,
    pub pending: Seq<u8>,
    pub output: Seq<u8>,
}

impl RewriterModel {
    /// The pending bytes are exactly the part of `https://` that the state
    /// says has been matched.
    pub open spec fn wf(self) -> bool {
        self.pending == secure_prefix().take(self.state.matched() as int)
    }
}

/// A rewriter that has consumed nothing.
pub open spec fn start() -> RewriterModel {
    RewriterModel { state: State::NotInScheme, pending: Seq::empty(), output: Seq::empty() }
}

/// One byte consumed: an `h` always flushes the pending bytes and starts a
/// new match; a byte that continues the match is held back; the last `/` of
/// `https://` emits `http://`; any other byte flushes the pending bytes and
/// is emitted itself.
pub open spec fn step(m: RewriterModel, c: u8) -> RewriterModel {
    if c == BYTE_H {
        RewriterModel { state: State::HaveH, pending: seq![c], output: m.output + m.pending }
    } else if m.state == State::HaveHTTPSCS && c == BYTE_SLASH {
        RewriterModel {
            state: State::NotInScheme,
            pending: Seq::empty(),
            output: m.output + plain_prefix(),
        }
    } else {
        match advance(m.state, c) {
            Some(next) => RewriterModel { state: next, pending: m.pending.push(c), output: m.output },
            None => RewriterModel {
                state: State::NotInScheme,
                pending: Seq::empty(),
                output: m.output + m.pending.push(c),
            },
        }
    }
}

/// An `h` in any state hands the pending bytes to the output unchanged and
/// starts a new match holding just that `h`.
pub proof fn lemma_restart_on_h(m: RewriterModel)
    ensures
        step(m, BYTE_H) == (RewriterModel {
            state: State::HaveH,
            pending: seq![BYTE_H],
            output: m.output + m.pending,
        }),
{
}

/// The bytes of `s` consumed in order.
pub open spec fn feed(m: RewriterModel, s: Seq<u8>) -> RewriterModel
    decreases s.len(),
{
    if s.len() == 0 {
        m
    } else {
        step(feed(m, s.drop_last()), s.last())
    }
}

/// Rewrites any `https://` into `http://` in the chunks it is fed, also where
/// the prefix spreads across chunk boundaries.
pub struct HttpsUrlRewriter {
    pub output_buffer: BytesMut,
    pub buffer: BytesMut,
    pub state: State,
}

impl View for HttpsUrlRewriter {
    type V = RewriterModel;

    open spec fn view(&self) -> RewriterModel {
        RewriterModel {
            state: self.state,
            pending: buffer_held(self.buffer),
            output: buffer_held(self.output_buffer),
        }
    }
}

/// A rewriter with no match in progress and no output.
pub fn url_rewriter() -> (r: HttpsUrlRewriter)
    ensures
        r@ == start(),
{
    HttpsUrlRewriter {
        output_buffer: new_buffer(1024),
        buffer: new_buffer(16),
        state: State::NotInScheme,
    }
}

impl HttpsUrlRewriter {
    /// Consumes every byte held by `string`, in order, and leaves it empty.
    pub fn consume_str(&mut self, string: &mut Bytes)
        ensures
            final(self)@ == feed(old(self)@, bytes_held(*old(string))),
            bytes_held(*final(string)) == Seq::<u8>::empty(),
    {
        let ghost data = bytes_held(*string);
        let ghost start = self@;
        proof {
            assert(data.skip(0) =~= data);
            assert(data.take(0) =~= Seq::<u8>::empty());
        }
        while has_remaining(string)
            invariant
                bytes_held(*string).len() <= data.len(),
                bytes_held(*string) == data.skip(data.len() - bytes_held(*string).len()),
                self@ == feed(start, data.take(data.len() - bytes_held(*string).len())),
            decreases bytes_held(*string).len(),
        {
            let ghost done = data.len() - bytes_held(*string).len();
            let c = get_u8(string);
            self.consume(c);
            proof {
                assert(data.take(done + 1).drop_last() =~= data.take(done));
                assert(data.skip(done + 1) =~= data.skip(done).skip(1));
            }
        }
        proof {
            assert(data.take(data.len() as int) =~= data);
        }
    }

    /// Removes and returns the decided output; a match in progress stays.
    pub fn move_output(&mut self) -> (r: Bytes)
        ensures
            bytes_held(r) == old(self)@.output,
            final(self)@ == (RewriterModel {
                state: old(self)@.state,
                pending: old(self)@.pending,
                output: Seq::empty(),
            }),
    {
        let bytes = split_all(&mut self.output_buffer);
        freeze(bytes)
    }

    /// Ends the stream: the bytes of an unfinished match are moved to the
    /// output unchanged.
    pub fn finish(&mut self)
        ensures
            final(self)@ == (RewriterModel {
                state: State::NotInScheme,
                pending: Seq::empty(),
                output: old(self)@.output + old(self)@.pending,
            }),
    {
        self.flush();
    }

    /// Consumes one byte.
    pub fn consume(&mut self, chr: u8)
        ensures
            final(self)@ == step(old(self)@, chr),
    {
        if chr == BYTE_H {
            self.flush();
            self.store(chr, State::HaveH);
        } else if self.state == State::HaveH && chr == BYTE_T {
            self.store(chr, State::HaveHT);
        } else if self.state == State::HaveHT && chr == BYTE_T {
            self.store(chr, State::HaveHTT);
        } else if self.state == State::HaveHTT && chr == BYTE_P {
            self.store(chr, State::HaveHTTP);
        } else if self.state == State::HaveHTTP && chr == BYTE_S {
            self.store(chr, State::HaveHTTPS);
        } else if self.state == State::HaveHTTPS && chr == BYTE_COLON {
            self.store(chr, State::HaveHTTPSC);
        } else if self.state == State::HaveHTTPSC && chr == BYTE_SLASH {
            self.store(chr, State::HaveHTTPSCS);
        } else if self.state == State::HaveHTTPSCS && chr == BYTE_SLASH {
            self.output_http();
        } else {
            self.flush_and_output(chr);
        }
    }

    fn reset_buffer(&mut self) -> (r: BytesMut)
        ensures
            buffer_held(r) == old(self)@.pending,
            final(self)@ == (RewriterModel {
                state: State::NotInScheme,
                pending: Seq::empty(),
                output: old(self)@.output,
            }),
    {
        let buf = split_all(&mut self.buffer);
        self.state = State::NotInScheme;
        buf
    }

    fn flush(&mut self)
        ensures
            final(self)@ == (RewriterModel {
                state: State::NotInScheme,
                pending: Seq::empty(),
                output: old(self)@.output + old(self)@.pending,
            }),
    {
        let bytes = self.reset_buffer();
        append_buffer(&mut self.output_buffer, bytes);
    }

    fn flush_and_output(&mut self, chr: u8)
        ensures
            final(self)@ == (RewriterModel {
                state: State::NotInScheme,
                pending: Seq::empty(),
                output: old(self)@.output + old(self)@.pending.push(chr),
            }),
    {
        self.flush();
        put_byte(&mut self.output_buffer, chr);
        proof {
            assert(self@.output =~= old(self)@.output + old(self)@.pending.push(chr));
        }
    }

    /// Holds `chr` back as part of the match and moves to `next_state`.
    fn store(&mut self, chr: u8, next_state: State)
        ensures
            final(self)@ == (RewriterModel {
                state: next_state,
                pending: old(self)@.pending.push(chr),
                output: old(self)@.output,
            }),
    {
        put_byte(&mut self.buffer, chr);
        self.state = next_state;
    }

    /// Emits `http://` and drops the matched `https:/`.
    fn output_http(&mut self)
        ensures
            final(self)@ == (RewriterModel {
                state: State::NotInScheme,
                pending: Seq::empty(),
                output: old(self)@.output + plain_prefix(),
            }),
    {
        put_byte(&mut self.output_buffer, BYTE_H);
        put_byte(&mut self.output_buffer, BYTE_T);
        put_byte(&mut self.output_buffer, BYTE_T);
        put_byte(&mut self.output_buffer, BYTE_P);
        put_byte(&mut self.output_buffer, BYTE_COLON);
        put_byte(&mut self.output_buffer, BYTE_SLASH);
        put_byte(&mut self.output_buffer, BYTE_SLASH);
        self.reset_buffer();
        proof {
            assert(self@.output =~= old(self)@.output + plain_prefix());
        }
    }
}

proof fn lemma_prefix_bytes()
    ensures
        secure_prefix().len() == 8,
        plain_prefix().len() == 7,
        secure_prefix()[0] == BYTE_H,
        forall|i: int| 1 <= i < 8 ==> secure_prefix()[i] != BYTE_H,
        secure_prefix()[1] == BYTE_T,
        secure_prefix()[2] == BYTE_T,
        secure_prefix()[3] == BYTE_P,
        secure_prefix()[4] == BYTE_S,
        secure_prefix()[5] == BYTE_COLON,
        secure_prefix()[6] == BYTE_SLASH,
        secure_prefix()[7] == BYTE_SLASH,
{
}

/// A byte string shorter than `https://` is left as it is.
proof fn lemma_short_unchanged(s: Seq<u8>)
    requires
        s.len() < 8,
    ensures
        downgraded(s) == s,
    decreases s.len(),
{
    if s.len() > 0 {
        lemma_short_unchanged(s.skip(1));
        assert(seq![s[0]] + s.skip(1) =~= s);
    }
}

/// Part of a pending match followed by an `h` is passed through unchanged.
proof fn lemma_pending_then_h(a: int, k: int, u: Seq<u8>)
    requires
        0 <= a <= k < 8,
        u.len() > 0,
        u[0] == BYTE_H,
    ensures
        downgraded(secure_prefix().subrange(a, k) + u)
            == secure_prefix().subrange(a, k) + downgraded(u),
    decreases k - a,
{
    lemma_prefix_bytes();
    let q = secure_prefix().subrange(a, k);
    if a < k {
        let s = q + u;
        if secure_at(s, 0) {
            assert(s.subrange(0, 8)[k - a] == s[k - a]);
        }
        lemma_pending_then_h(a + 1, k, u);
        assert(s.skip(1) =~= secure_prefix().subrange(a + 1, k) + u);
        assert(seq![q[0]] + secure_prefix().subrange(a + 1, k) =~= q);
    } else {
        assert(q + u =~= u);
        assert(q + downgraded(u) =~= downgraded(u));
    }
}

/// Part of a pending match followed by a byte that breaks it is passed
/// through unchanged.
proof fn lemma_pending_broken(a: int, k: int, c: u8, t: Seq<u8>)
    requires
        0 <= a <= k < 8,
        c != BYTE_H,
        a == 0 ==> c != secure_prefix()[k],
    ensures
        downgraded(secure_prefix().subrange(a, k) + seq![c] + t)
            == secure_prefix().subrange(a, k) + seq![c] + downgraded(t),
    decreases k - a,
{
    lemma_prefix_bytes();
    let q = secure_prefix().subrange(a, k);
    let s = q + seq![c] + t;
    if a < k {
        if secure_at(s, 0) {
            if a == 0 {
                assert(s.subrange(0, 8)[k] == s[k]);
            } else {
                assert(s.subrange(0, 8)[0] == s[0]);
            }
        }
        lemma_pending_broken(a + 1, k, c, t);
        assert(s.skip(1) =~= secure_prefix().subrange(a + 1, k) + seq![c] + t);
        assert(seq![q[0]] + secure_prefix().subrange(a + 1, k) + seq![c] =~= q + seq![c]);
    } else {
        if secure_at(s, 0) {
            assert(s.subrange(0, 8)[0] == s[0]);
        }
        assert(s =~= seq![c] + t);
        assert(s.skip(1) =~= t);
        assert(q + seq![c] =~= seq![c]);
    }
}

/// One step keeps the model well formed, and what it decides plus what it
/// still holds back means the same as before.
proof fn lemma_step(m: RewriterModel, c: u8, t: Seq<u8>)
    requires
        m.wf(),
    ensures
        step(m, c).wf(),
        step(m, c).output + downgraded(step(m, c).pending + t)
            == m.output + downgraded(m.pending + seq![c] + t),
{
    lemma_prefix_bytes();
    let k = m.state.matched() as int;
    let n = step(m, c);
    assert(secure_prefix().subrange(0, k) =~= m.pending);
    if c == BYTE_H {
        lemma_pending_then_h(0, k, seq![c] + t);
        assert(m.pending + seq![c] + t =~= m.pending + (seq![c] + t));
        assert(n.pending =~= secure_prefix().take(1));
        assert(n.output + downgraded(n.pending + t) =~= m.output + (m.pending + downgraded(seq![c] + t)));
    } else if m.state == State::HaveHTTPSCS && c == BYTE_SLASH {
        let s = m.pending + seq![c] + t;
        assert(s.subrange(0, 8) =~= secure_prefix());
        assert(s.skip(8) =~= t);
        assert(n.pending =~= secure_prefix().take(0));
        assert(n.pending + t =~= t);
        assert(n.output + downgraded(t) =~= m.output + (plain_prefix() + downgraded(t)));
    } else {
        match advance(m.state, c) {
            Some(next) => {
                assert(next.matched() == k + 1 && c == secure_prefix()[k]);
                assert(n.pending =~= secure_prefix().take(k + 1));
                assert(n.pending + t =~= m.pending + seq![c] + t);
            },
            None => {
                lemma_pending_broken(0, k, c, t);
                assert(n.pending =~= secure_prefix().take(0));
                assert(n.pending + t =~= t);
                assert(n.output + downgraded(t) =~= m.output + (m.pending + seq![c] + downgraded(t)));
            },
        }
    }
}

proof fn lemma_feed_meaning(m: RewriterModel, s: Seq<u8>, t: Seq<u8>)
    requires
        m.wf(),
    ensures
        feed(m, s).wf(),
        feed(m, s).output + downgraded(feed(m, s).pending + t)
            == m.output + downgraded(m.pending + s + t),
    decreases s.len(),
{
    if s.len() > 0 {
        let c = s.last();
        let prev = feed(m, s.drop_last());
        lemma_feed_meaning(m, s.drop_last(), seq![c] + t);
        lemma_step(prev, c, t);
        assert(prev.pending + (seq![c] + t) =~= prev.pending + seq![c] + t);
        assert(m.pending + s.drop_last() + (seq![c] + t) =~= m.pending + s + t);
    } else {
        assert(m.pending + s + t =~= m.pending + t);
    }
}

/// Feeding a stream into a well-formed rewriter decides, together with the
/// bytes still held back, exactly the stream with every `https://`
/// replaced by `http://`. The bytes held back are at most a proper part of
/// `https://`, which no rewriting would change.
pub proof fn lemma_feed_downgrades(m: RewriterModel, s: Seq<u8>)
    requires
        m.wf(),
    ensures
        feed(m, s).wf(),
        feed(m, s).pending.len() < 8,
        feed(m, s).output + feed(m, s).pending == m.output + downgraded(m.pending + s),
{
    lemma_feed_meaning(m, s, Seq::empty());
    let f = feed(m, s);
    lemma_short_unchanged(f.pending);
    assert(f.pending + Seq::<u8>::empty() =~= f.pending);
    assert(m.pending + s + Seq::<u8>::empty() =~= m.pending + s);
}

/// The chunks fed one after another, with the output drained after each
/// chunk: the drained bytes, concatenated, and the rewriter at the end.
pub open spec fn drain_after_each(m: RewriterModel, chunks: Seq<Seq<u8>>) -> (Seq<u8>, RewriterModel)
    decreases chunks.len(),
{
    if chunks.len() == 0 {
        (Seq::empty(), m)
    } else {
        let (drained, before) = drain_after_each(m, chunks.drop_last());
        let after = feed(before, chunks.last());
        (
            drained + after.output,
            RewriterModel { state: after.state, pending: after.pending, output: Seq::empty() },
        )
    }
}

/// Feeding `a` and then `b` is feeding `a + b`.
pub proof fn lemma_feed_concat(m: RewriterModel, a: Seq<u8>, b: Seq<u8>)
    ensures
        feed(m, a + b) == feed(feed(m, a), b),
    decreases b.len(),
{
    if b.len() == 0 {
        assert(a + b =~= a);
    } else {
        lemma_feed_concat(m, a, b.drop_last());
        assert((a + b).drop_last() =~= a + b.drop_last());
        assert((a + b).last() == b.last());
    }
}

/// Output decided before feeding stays in front of what feeding decides.
pub(crate) proof fn lemma_feed_keeps_output(m: RewriterModel, pre: Seq<u8>, s: Seq<u8>)
    ensures
        feed(RewriterModel { state: m.state, pending: m.pending, output: pre + m.output }, s)
            == (RewriterModel {
                state: feed(m, s).state,
                pending: feed(m, s).pending,
                output: pre + feed(m, s).output,
            }),
    decreases s.len(),
{
    if s.len() > 0 {
        lemma_feed_keeps_output(m, pre, s.drop_last());
        let f = feed(m, s.drop_last());
        let c = s.last();
        assert(pre + f.output + f.pending =~= pre + (f.output + f.pending));
        assert(pre + f.output + plain_prefix() =~= pre + (f.output + plain_prefix()));
        assert(pre + f.output + f.pending.push(c) =~= pre + (f.output + f.pending.push(c)));
    }
}

/// However a stream is cut into chunks, draining after every chunk yields
/// the same bytes as feeding the whole stream at once and draining once,
/// and leaves the same match in progress.
pub proof fn lemma_chunk_invariance(m: RewriterModel, chunks: Seq<Seq<u8>>)
    ensures
        ({
            let (drained, last) = drain_after_each(m, chunks);
            let whole = feed(m, chunks.flatten());
            &&& drained + last.output == whole.output
            &&& last.state == whole.state
            &&& last.pending == whole.pending
        }),
    decreases chunks.len(),
{
    if chunks.len() == 0 {
        assert(Seq::<u8>::empty() + m.output =~= m.output);
    } else {
        let init = chunks.drop_last();
        let x = chunks.last();
        lemma_chunk_invariance(m, init);
        let (drained, before) = drain_after_each(m, init);
        let prefix_fed = feed(m, init.flatten());
        assert(init.push(x) =~= chunks);
        init.lemma_flatten_push(x);
        lemma_feed_concat(m, init.flatten(), x);
        assert(prefix_fed == (RewriterModel {
            state: before.state,
            pending: before.pending,
            output: drained + before.output,
        }));
        lemma_feed_keeps_output(before, drained, x);
        assert(drained + feed(before, x).output + Seq::<u8>::empty() =~= drained + feed(before, x).output);
    }
}

/// Rewriting leaves a byte string without `https://` as it is.
proof fn lemma_no_secure_unchanged(s: Seq<u8>)
    requires
        forall|i: int| !secure_at(s, i),
    ensures
        downgraded(s) == s,
    decreases s.len(),
{
    if s.len() > 0 {
        assert forall|i: int| !secure_at(s.skip(1), i) by {
            if secure_at(s.skip(1), i) {
                assert(s.subrange(i + 1, i + 9) =~= s.skip(1).subrange(i, i + 8));
                assert(secure_at(s, i + 1));
            }
        }
        lemma_no_secure_unchanged(s.skip(1));
        assert(!secure_at(s, 0));
        assert(seq![s[0]] + s.skip(1) =~= s);
    }
}

/// Rewriting output that holds no `https://` again changes nothing.
pub proof fn lemma_fixed_point(s: Seq<u8>)
    requires
        forall|i: int| !secure_at(downgraded(s), i),
    ensures
        downgraded(downgraded(s)) == downgraded(s),
{
    lemma_no_secure_unchanged(downgraded(s));
}

/// Whether `s` holds `http://` at position `i`.
pub open spec fn plain_at(s: Seq<u8>, i: int) -> bool {
    0 <= i && i + 7 <= s.len() && s.subrange(i, i + 7) == plain_prefix()
}

/// The number of `https://` occurrences that rewriting replaces: scanning
/// left to right, without overlaps.
pub open spec fn secure_count(s: Seq<u8>) -> nat
    decreases s.len(),
{
    if s.len() == 0 {
        0
    } else if secure_at(s, 0) {
        1 + secure_count(s.skip(8))
    } else {
        secure_count(s.skip(1))
    }
}

/// The number of `http://` occurrences in `s`, scanning left to right,
/// without overlaps.
pub open spec fn plain_count(s: Seq<u8>) -> nat
    decreases s.len(),
{
    if s.len() == 0 {
        0
    } else if plain_at(s, 0) {
        1 + plain_count(s.skip(7))
    } else {
        plain_count(s.skip(1))
    }
}

/// Holds no `h`.
pub open spec fn without_h(w: Seq<u8>) -> bool {
    forall|i: int| 0 <= i < w.len() ==> w[i] != BYTE_H
}

proof fn lemma_plain_bytes()
    ensures
        plain_prefix().len() == 7,
        plain_prefix()[0] == BYTE_H,
        plain_prefix()[4] == BYTE_COLON,
        without_h(plain_prefix().skip(1)),
        without_h(secure_prefix().skip(1)),
{
    lemma_prefix_bytes();
    assert(plain_prefix()[1] == BYTE_T);
    assert(plain_prefix()[2] == BYTE_T);
    assert(plain_prefix()[3] == BYTE_P);
    assert(plain_prefix()[5] == BYTE_SLASH);
    assert(plain_prefix()[6] == BYTE_SLASH);
}

/// Bytes without an `h` start no match: rewriting and both counts pass
/// over them.
proof fn lemma_skip_without_h(w: Seq<u8>, x: Seq<u8>)
    requires
        without_h(w),
    ensures
        downgraded(w + x) == w + downgraded(x),
        secure_count(w + x) == secure_count(x),
        plain_count(w + x) == plain_count(x),
    decreases w.len(),
{
    lemma_prefix_bytes();
    lemma_plain_bytes();
    if w.len() == 0 {
        assert(w + x =~= x);
        assert(w + downgraded(x) =~= downgraded(x));
    } else {
        let s = w + x;
        if secure_at(s, 0) {
            assert(s.subrange(0, 8)[0] == s[0]);
        }
        if plain_at(s, 0) {
            assert(s.subrange(0, 7)[0] == s[0]);
        }
        lemma_skip_without_h(w.skip(1), x);
        assert(s.skip(1) =~= w.skip(1) + x);
        assert(seq![w[0]] + (w.skip(1) + downgraded(x)) =~= w + downgraded(x));
    }
}

/// A rewritten stream that starts with bytes without an `h` came from a
/// stream that starts with those same bytes.
proof fn lemma_prefix_without_h(x: Seq<u8>, w: Seq<u8>)
    requires
        without_h(w),
        downgraded(x).len() >= w.len(),
        downgraded(x).take(w.len() as int) == w,
    ensures
        x.len() >= w.len(),
        x.take(w.len() as int) == w,
    decreases w.len(),
{
    lemma_prefix_bytes();
    if w.len() > 0 {
        assert(downgraded(x).take(w.len() as int)[0] == downgraded(x)[0]);
        if secure_at(x, 0) {
            assert((plain_prefix() + downgraded(x.skip(8)))[0] == BYTE_H);
        }
        let rest = downgraded(x.skip(1));
        assert(downgraded(x) == seq![x[0]] + rest);
        assert(rest.take(w.len() - 1) =~= downgraded(x).take(w.len() as int).skip(1));
        lemma_prefix_without_h(x.skip(1), w.skip(1));
        assert(x.take(w.len() as int) =~= seq![x[0]] + x.skip(1).take(w.len() - 1));
        assert(w =~= seq![w[0]] + w.skip(1));
    } else {
        assert(x.take(0) =~= w);
    }
}

/// The counts of rewriting: each replacement shortens the stream by one
/// byte, and the `http://` occurrences of the result are exactly the
/// replaced `https://` occurrences and those the stream already had.
pub proof fn lemma_replacement_counts(s: Seq<u8>)
    ensures
        downgraded(s).len() + secure_count(s) == s.len(),
        plain_count(downgraded(s)) == secure_count(s) + plain_count(s),
    decreases s.len(),
{
    lemma_prefix_bytes();
    lemma_plain_bytes();
    if s.len() == 0 {
        return;
    }
    let d = downgraded(s);
    if secure_at(s, 0) {
        let r = s.skip(8);
        lemma_replacement_counts(r);
        let y = downgraded(r);
        assert((plain_prefix() + y).subrange(0, 7) =~= plain_prefix());
        assert((plain_prefix() + y).skip(7) =~= y);
        if plain_at(s, 0) {
            assert(s.subrange(0, 7)[4] == s.subrange(0, 8)[4]);
        }
        assert(s.skip(1) =~= secure_prefix().skip(1).take(7) + r) by {
            assert(s.subrange(0, 8) == secure_prefix());
            assert forall|i: int| 0 <= i < 7 implies s.skip(1)[i] == secure_prefix().skip(1).take(7)[i] by {
                assert(s.subrange(0, 8)[i + 1] == s[i + 1]);
            }
        }
        assert(without_h(secure_prefix().skip(1).take(7)));
        lemma_skip_without_h(secure_prefix().skip(1).take(7), r);
    } else if s[0] != BYTE_H {
        let r = s.skip(1);
        lemma_replacement_counts(r);
        if plain_at(s, 0) {
            assert(s.subrange(0, 7)[0] == s[0]);
        }
        assert(without_h(seq![s[0]]));
        lemma_skip_without_h(seq![s[0]], downgraded(r));
    } else {
        let r = s.skip(1);
        lemma_replacement_counts(r);
        let tail = plain_prefix().skip(1);
        if plain_at(s, 0) {
            let after = s.skip(7);
            lemma_replacement_counts(after);
            assert(r =~= tail + after) by {
                assert forall|i: int| 0 <= i < 6 implies r[i] == tail[i] by {
                    assert(s.subrange(0, 7)[i + 1] == s[i + 1]);
                }
            }
            lemma_skip_without_h(tail, after);
            assert(d =~= plain_prefix() + downgraded(after)) by {
                assert(plain_prefix() =~= seq![s[0]] + tail);
            }
            let y = downgraded(after);
            assert((plain_prefix() + y).subrange(0, 7) =~= plain_prefix());
            assert((plain_prefix() + y).skip(7) =~= y);
        } else {
            let y = downgraded(r);
            if plain_at(d, 0) {
                assert(y.take(6) =~= tail) by {
                    assert forall|i: int| 0 <= i < 6 implies y.take(6)[i] == tail[i] by {
                        assert(d.subrange(0, 7)[i + 1] == d[i + 1]);
                    }
                }
                lemma_prefix_without_h(r, tail);
                assert(s.subrange(0, 7) =~= plain_prefix()) by {
                    assert forall|i: int| 0 <= i < 7 implies s.subrange(0, 7)[i] == plain_prefix()[i] by {
                        if i > 0 {
                            assert(r.take(6)[i - 1] == r[i - 1]);
                        }
                    }
                }
            }
            assert(d.skip(1) =~= y);
        }
    }
}

/// Rewriting bytes followed by a proper part of `https://` rewrites the
/// bytes and keeps that part as it is.
proof fn lemma_pending_tail(x: Seq<u8>, k: int)
    requires
        0 <= k < 8,
    ensures
        downgraded(x + secure_prefix().take(k)) == downgraded(x) + secure_prefix().take(k),
    decreases x.len(),
{
    lemma_prefix_bytes();
    let p = secure_prefix().take(k);
    let s = x + p;
    if x.len() == 0 {
        assert(s =~= p);
        lemma_short_unchanged(p);
        assert(downgraded(x) + p =~= p);
    } else if secure_at(s, 0) {
        if x.len() < 8 {
            let i = x.len() as int;
            assert(s.subrange(0, 8)[i] == s[i]);
            assert(s[i] == p[0]);
        } else {
            assert(x.subrange(0, 8) =~= s.subrange(0, 8));
            lemma_pending_tail(x.skip(8), k);
            assert(s.skip(8) =~= x.skip(8) + p);
            assert(plain_prefix() + (downgraded(x.skip(8)) + p) =~= plain_prefix() + downgraded(x.skip(8)) + p);
        }
    } else {
        if secure_at(x, 0) {
            assert(x.subrange(0, 8) =~= s.subrange(0, 8));
        }
        lemma_pending_tail(x.skip(1), k);
        assert(s.skip(1) =~= x.skip(1) + p);
        assert(seq![x[0]] + (downgraded(x.skip(1)) + p) =~= seq![x[0]] + downgraded(x.skip(1)) + p);
    }
}

proof fn lemma_advance_on_next_byte(st: State)
    requires
        1 <= st.matched() <= 6,
    ensures
        advance(st, secure_prefix()[st.matched() as int]) is Some,
{
    lemma_prefix_bytes();
}

/// From a fresh rewriter, the held-back bytes end the stream, and no
/// longer end of the stream is a proper part of `https://`.
proof fn lemma_pending_is_longest(s: Seq<u8>)
    ensures
        feed(start(), s).wf(),
        feed(start(), s).pending.len() <= s.len(),
        feed(start(), s).pending == s.skip(s.len() - feed(start(), s).pending.len()),
        forall|j: int| feed(start(), s).pending.len() < j < 8 && j <= s.len()
            ==> s.skip(s.len() - j) != secure_prefix().take(j),
    decreases s.len(),
{
    lemma_prefix_bytes();
    assert(secure_prefix().take(0) =~= start().pending);
    lemma_feed_meaning(start(), s, Seq::empty());
    let n = s.len() as int;
    if n == 0 {
        assert(s.skip(0) =~= start().pending);
    } else {
        let s1 = s.drop_last();
        let c = s.last();
        lemma_pending_is_longest(s1);
        let f1 = feed(start(), s1);
        let f = step(f1, c);
        let k1 = f1.pending.len() as int;
        let k = f.pending.len() as int;
        assert(f == feed(start(), s));
        if c == BYTE_H {
            assert(f.pending =~= s.skip(n - 1));
        } else if f1.state == State::HaveHTTPSCS && c == BYTE_SLASH {
            assert(f.pending =~= s.skip(n));
        } else if advance(f1.state, c) is Some {
            assert(f.pending =~= s.skip(n - k1 - 1));
        } else {
            assert(f.pending =~= s.skip(n));
        }
        assert forall|j: int| k < j < 8 && j <= n implies s.skip(n - j) != secure_prefix().take(j) by {
            if s.skip(n - j) == secure_prefix().take(j) {
                let t = s.skip(n - j);
                assert(t[j - 1] == c);
                assert(c == secure_prefix()[j - 1]);
                assert(s1.skip((n - 1) - (j - 1)) =~= secure_prefix().take(j - 1)) by {
                    assert forall|i: int| 0 <= i < j - 1 implies #[trigger] s1.skip((n - 1) - (j - 1))[i]
                        == secure_prefix().take(j - 1)[i] by {
                        assert(t[i] == s[n - j + i]);
                    }
                }
                if c == BYTE_H {
                    assert(j - 1 == 0);
                } else if j - 1 > k1 {
                    assert(s1.skip((n - 1) - (j - 1)) != secure_prefix().take(j - 1));
                } else if j - 1 == k1 {
                    if 1 <= k1 <= 6 {
                        lemma_advance_on_next_byte(f1.state);
                    }
                } else if j - 1 >= 1 {
                    let i0 = k1 - (j - 1);
                    assert(s1[(n - 1) - (j - 1)] == f1.pending[i0]);
                    assert(s1.skip((n - 1) - (j - 1))[0] == s1[(n - 1) - (j - 1)]);
                    assert(secure_prefix().take(j - 1)[0] == BYTE_H);
                } else {
                    assert(t[0] == secure_prefix()[0]);
                }
            }
        }
    }
}

/// From a fresh rewriter, the bytes held back are the longest end of the
/// stream that is a proper part of `https://`, and the output is the rest
/// of the stream with every `https://` replaced by `http://`.
pub proof fn lemma_stream_split(s: Seq<u8>)
    ensures
        ({
            let f = feed(start(), s);
            let k = f.pending.len() as int;
            &&& k < 8
            &&& k <= s.len()
            &&& f.pending == s.skip(s.len() - k)
            &&& f.pending == secure_prefix().take(k)
            &&& forall|j: int| k < j < 8 && j <= s.len() ==> s.skip(s.len() - j) != secure_prefix().take(j)
            &&& f.output == downgraded(s.take(s.len() - k))
        }),
{
    lemma_pending_is_longest(s);
    assert(secure_prefix().take(0) =~= start().pending);
    lemma_feed_downgrades(start(), s);
    let f = feed(start(), s);
    let k = f.pending.len() as int;
    let x = s.take(s.len() - k);
    assert(s =~= x + f.pending);
    assert(start().pending + s =~= s);
    assert(start().output + downgraded(s) =~= downgraded(s));
    lemma_pending_tail(x, k);
    let d = downgraded(x);
    assert(f.output + f.pending == d + f.pending);
    assert(f.output.len() == d.len());
    assert(f.output =~= (f.output + f.pending).subrange(0, f.output.len() as int));
    assert(d =~= (d + f.pending).subrange(0, d.len() as int));
}

} // verus!
