//! A fixed-capacity, style-deduplicating output buffer.
//!
//! Bytes are appended to a 4096-byte buffer; a byte that does not fit
//! triggers a flush: the full buffer is moved to the flushed region and the
//! buffer restarts with that byte. The caller drains the flushed region and
//! hands it to the output boundary.

use vstd::prelude::*;

use crate::style::{
    emit_style, end_style, lemma_styled_bytes_concat, style_code, styled_bytes, Style,
};

verus! {

/// Fixed-capacity byte buffer; the backing store is an
/// `arrayvec::ArrayVec` and is opaque to the verifier.
#[verifier::external_body]
pub struct FixedBuf {
    inner: arrayvec::ArrayVec<[u8; 4096]>,
}

/// The bytes currently held by a `FixedBuf`.
pub uninterp spec fn fixed_buf_bytes(b: FixedBuf) -> Seq<u8>;

/// Relies on `arrayvec::ArrayVec::new`: an empty vector.
#[verifier::external_body]
fn fixed_buf_new() -> (r: FixedBuf)
    ensures
        fixed_buf_bytes(r) == Seq::<u8>::empty(),
{
    FixedBuf { inner: arrayvec::ArrayVec::new() }
}

/// Relies on `arrayvec::ArrayVec::try_push`: appends the byte and returns
/// `Ok` when the vector is below its capacity of 4096, else leaves it
/// unchanged and returns an error.
#[verifier::external_body]
fn fixed_buf_try_push(b: &mut FixedBuf, byte: u8) -> (ok: bool)
    ensures
        ok == (fixed_buf_bytes(*old(b)).len() < 4096),
        ok ==> fixed_buf_bytes(*final(b)) == fixed_buf_bytes(*old(b)).push(byte),
        !ok ==> fixed_buf_bytes(*final(b)) == fixed_buf_bytes(*old(b)),
{
    b.inner.try_push(byte).is_ok()
}

/// Relies on `arrayvec::ArrayVec::clear` (`truncate(0)`): removes all
/// elements.
#[verifier::external_body]
fn fixed_buf_clear(b: &mut FixedBuf)
    ensures
        fixed_buf_bytes(*final(b)) == Seq::<u8>::empty(),
{
    b.inner.clear()
}

/// Relies on `arrayvec::ArrayVec::as_slice`: the stored elements in order.
#[verifier::external_body]
fn fixed_buf_as_slice(b: &FixedBuf) -> (r: &[u8])
    ensures
        r@ == fixed_buf_bytes(*b),
{
    b.inner.as_slice()
}

/// A value that can be handed to `BufferedStdout::write` as a byte sequence.
pub trait Writable {
    /// The bytes this value stands for.
    spec fn wbytes(&self) -> Seq<u8>;

    /// The bytes this value stands for.
    fn as_bytes(&self) -> (r: &[u8])
        ensures
            r@ == self.wbytes(),
    ;
}

impl Writable for &[u8] {
    open spec fn wbytes(&self) -> Seq<u8> {
        (*self)@
    }

    fn as_bytes(&self) -> (r: &[u8]) {
        *self
    }
}

impl<const N: usize> Writable for &[u8; N] {
    open spec fn wbytes(&self) -> Seq<u8> {
        (*self)@
    }

    fn as_bytes(&self) -> (r: &[u8]) {
        (*self).as_slice()
    }
}

impl Writable for &Vec<u8> {
    open spec fn wbytes(&self) -> Seq<u8> {
        (*self)@
    }

    fn as_bytes(&self) -> (r: &[u8]) {
        self.as_slice()
    }
}

/// Abstract state of a `BufferedStdout`: the bytes already flushed to the
/// output boundary, the bytes still pending in the buffer, and how many
/// flushes have happened.
#[verifier::ext_equal]
pub ghost struct BufSnap {
    pub done: Seq<u8>,
    pub pending: Seq<u8>,
    pub flushes: nat,
}

/// One byte through the buffering policy: a byte that does not fit in the
/// 4096-byte buffer first flushes the whole buffer.
pub open spec fn feed1(m: BufSnap, b: u8) -> BufSnap {
    if m.pending.len() < 4096 {
        BufSnap { done: m.done, pending: m.pending.push(b), flushes: m.flushes }
    } else {
        BufSnap { done: m.done + m.pending, pending: seq![b], flushes: m.flushes + 1 }
    }
}

/// A byte sequence through the buffering policy, front to back.
pub open spec fn feed(m: BufSnap, bs: Seq<u8>) -> BufSnap
    decreases bs.len(),
{
    if bs.len() == 0 {
        m
    } else {
        feed(feed1(m, bs[0]), bs.drop_first())
    }
}

/// Feeding never loses a byte: flushed and pending bytes together are the
/// old ones followed by the fed ones.
pub proof fn lemma_feed_stream(m: BufSnap, bs: Seq<u8>)
    ensures
        feed(m, bs).done + feed(m, bs).pending == m.done + m.pending + bs,
        feed(m, bs).pending.len() <= 4096 || feed(m, bs).pending == m.pending,
    decreases bs.len(),
{
    if bs.len() == 0 {
        assert(m.done + m.pending + bs =~= m.done + m.pending);
    } else {
        let m1 = feed1(m, bs[0]);
        lemma_feed_stream(m1, bs.drop_first());
        assert(m1.done + m1.pending =~= m.done + m.pending + seq![bs[0]]);
        assert(m.done + m.pending + seq![bs[0]] + bs.drop_first() =~= m.done + m.pending + bs);
    }
}

/// Feeding a single byte is one step of the policy.
pub proof fn lemma_feed_one(m: BufSnap, b: u8)
    ensures
        feed(m, seq![b]) == feed1(m, b),
{
    let s = seq![b];
    assert(s[0] == b);
    assert(s.drop_first().len() == 0);
    assert(feed(feed1(m, b), s.drop_first()) == feed1(m, b));
}

/// Feeding a concatenation is feeding the parts in order.
pub proof fn lemma_feed_concat(m: BufSnap, a: Seq<u8>, b: Seq<u8>)
    ensures
        feed(m, a + b) == feed(feed(m, a), b),
    decreases a.len(),
{
    if a.len() == 0 {
        assert(a + b =~= b);
    } else {
        lemma_feed_concat(feed1(m, a[0]), a.drop_first(), b);
        assert((a + b).drop_first() =~= a.drop_first() + b);
        assert((a + b)[0] == a[0]);
    }
}

/// A buffered, style-deduplicating byte writer. Flushed bytes stay inside
/// the value until the caller takes them for the output boundary.
pub struct BufferedStdout {
    buf: FixedBuf,
    style: Style,
    flushed: Vec<u8>,
    flushes: usize,
}

impl BufferedStdout {
    /// The bytes flushed out of the buffer so far and not yet taken.
    pub closed spec fn flushed_bytes(self) -> Seq<u8> {
        self.flushed@
    }

    /// The bytes still pending in the buffer.
    pub closed spec fn buffered(self) -> Seq<u8> {
        fixed_buf_bytes(self.buf)
    }

    /// Every byte written so far, flushed or pending, in order.
    pub open spec fn stream(self) -> Seq<u8> {
        self.flushed_bytes() + self.buffered()
    }

    /// The style most recently written, against which `style` deduplicates.
    pub closed spec fn style_state(self) -> Style {
        self.style
    }

    /// How many flushes have happened since construction (or since the
    /// flushed bytes were last taken).
    pub closed spec fn flush_count(self) -> nat {
        self.flushes as nat
    }

    /// Abstract buffering state.
    pub open spec fn snap(self) -> BufSnap {
        BufSnap {
            done: self.flushed_bytes(),
            pending: self.buffered(),
            flushes: self.flush_count(),
        }
    }

    /// The buffer never holds more than its capacity, and every flush
    /// moved exactly one full buffer.
    pub open spec fn wf(self) -> bool {
        &&& self.buffered().len() <= 4096
        &&& self.flushed_bytes().len() == 4096 * self.flush_count()
    }

    /// A fresh writer: empty, no flushes, neutral style.
    pub fn new() -> (r: Self)
        ensures
            r.wf(),
            r.stream() == Seq::<u8>::empty(),
            r.flushed_bytes() == Seq::<u8>::empty(),
            r.style_state() == Style::Reset,
            r.flush_count() == 0,
    {
        let r = BufferedStdout {
            buf: fixed_buf_new(),
            style: Style::Reset,
            flushed: Vec::new(),
            flushes: 0,
        };
        proof {
            assert(r.stream() =~= Seq::<u8>::empty());
        }
        r
    }

    /// Append one byte, flushing first if the buffer is full.
    pub fn push(&mut self, b: u8)
        requires
            old(self).wf(),
        ensures
            final(self).wf(),
            final(self).snap() == feed1(old(self).snap(), b),
            final(self).stream() == old(self).stream().push(b),
            final(self).style_state() == old(self).style_state(),
    {
        let ghost pre = self.snap();
        let ghost pre_style = self.style;
        let ok = fixed_buf_try_push(&mut self.buf, b);
        if !ok {
            let ghost old_flushes = self.flushes;
            let pending = fixed_buf_as_slice(&self.buf);
            let mut i: usize = 0;
            let n = pending.len();
            while i < n
                invariant
                    n == pending@.len(),
                    i <= n,
                    pending@ == pre.pending,
                    fixed_buf_bytes(self.buf) == pre.pending,
                    self.flushes == old_flushes,
                    self.style == pre_style,
                    self.flushed@ == pre.done + pre.pending.subrange(0, i as int),
                decreases n - i,
            {
                let byte = pending[i];
                self.flushed.push(byte);
                proof {
                    assert(self.flushed@ =~= pre.done + pre.pending.subrange(0, i + 1 as int));
                }
                i = i + 1;
            }
            proof {
                assert(pre.pending.subrange(0, pre.pending.len() as int) =~= pre.pending);
                assert(self.flushed@.len() == 4096 * (self.flushes + 1) as nat) by (nonlinear_arith)
                    requires
                        self.flushed@.len() == pre.done.len() + pre.pending.len(),
                        pre.done.len() == 4096 * self.flushes as nat,
                        pre.pending.len() == 4096,
                ;
            }
            let new_len = self.flushed.len();
            self.flushes = new_len / 4096;
            proof {
                assert(self.flushes as nat == pre.flushes + 1) by (nonlinear_arith)
                    requires
                        self.flushes as nat == new_len as nat / 4096,
                        new_len as nat == 4096 * (pre.flushes + 1),
                ;
            }
            fixed_buf_clear(&mut self.buf);
            let ok2 = fixed_buf_try_push(&mut self.buf, b);
            proof {
                assert(fixed_buf_bytes(self.buf) =~= seq![b]);
                assert(self.snap() =~= feed1(pre, b));
                assert(self.stream() =~= (pre.done + pre.pending).push(b));
            }
        } else {
            proof {
                assert(self.snap() =~= feed1(pre, b));
                assert(self.stream() =~= (pre.done + pre.pending).push(b));
            }
        }
    }

    /// Append a byte sequence, flushing as needed.
    pub fn write<T: Writable>(&mut self, item: T)
        requires
            old(self).wf(),
        ensures
            final(self).wf(),
            final(self).snap() == feed(old(self).snap(), item.wbytes()),
            final(self).stream() == old(self).stream() + item.wbytes(),
            final(self).style_state() == old(self).style_state(),
    {
        let ghost pre = self.snap();
        let bytes = item.as_bytes();
        let n = bytes.len();
        let mut i: usize = 0;
        while i < n
            invariant
                old(self).wf(),
                n == bytes@.len(),
                i <= n,
                bytes@ == item.wbytes(),
                self.wf(),
                self.snap() == feed(pre, bytes@.subrange(0, i as int)),
                self.style_state() == old(self).style_state(),
                pre == old(self).snap(),
            decreases n - i,
        {
            self.push(bytes[i]);
            proof {
                let done = bytes@.subrange(0, i as int);
                assert(done.push(bytes@[i as int]) =~= bytes@.subrange(0, i + 1 as int));
                lemma_feed_concat(pre, done, seq![bytes@[i as int]]);
                assert(done + seq![bytes@[i as int]] =~= bytes@.subrange(0, i + 1 as int));
                lemma_feed_one(feed(pre, done), bytes@[i as int]);
            }
            i = i + 1;
        }
        proof {
            assert(bytes@.subrange(0, n as int) =~= item.wbytes());
            lemma_feed_stream(old(self).snap(), item.wbytes());
            assert(self.stream() =~= old(self).stream() + item.wbytes());
        }
    }

    /// Switch the active style: a no-op when `s` is already active, else
    /// the escape sequence of `s` is written and remembered.
    pub fn style(&mut self, s: Style)
        requires
            old(self).wf(),
        ensures
            final(self).wf(),
            old(self).style_state() == s ==> *final(self) == *old(self),
            old(self).style_state() != s ==> final(self).snap() == feed(
                old(self).snap(),
                style_code(s),
            ),
            final(self).stream() == old(self).stream() + crate::style::emit_style(
                old(self).style_state(),
                s,
            ),
            final(self).style_state() == s,
    {
        if self.style != s {
            let bytes = s.to_bytes();
            self.write(&bytes);
            self.style = s;
        } else {
            proof {
                assert(self.stream() =~= old(self).stream() + crate::style::emit_style(
                    old(self).style_state(),
                    s,
                ));
            }
        }
    }

    /// Write (style, byte) pairs in order, switching style before each
    /// byte whose style differs from the active one.
    pub fn write_styled(&mut self, items: &Vec<(Style, u8)>)
        requires
            old(self).wf(),
        ensures
            final(self).wf(),
            final(self).stream() == old(self).stream() + styled_bytes(
                old(self).style_state(),
                items@,
            ),
            final(self).style_state() == end_style(old(self).style_state(), items@),
    {
        let ghost base = self.stream();
        let ghost cur0 = self.style_state();
        let n = items.len();
        let mut i: usize = 0;
        while i < n
            invariant
                self.wf(),
                i <= n,
                n == items@.len(),
                self.stream() == base + styled_bytes(cur0, items@.subrange(0, i as int)),
                self.style_state() == end_style(cur0, items@.subrange(0, i as int)),
            decreases n - i,
        {
            let (s, b) = items[i];
            self.style(s);
            self.push(b);
            proof {
                let pre = items@.subrange(0, i as int);
                let post = items@.subrange(0, i + 1 as int);
                let one = seq![items@[i as int]];
                assert(post =~= pre + one);
                lemma_styled_bytes_concat(cur0, pre, one);
                assert(one.drop_first().len() == 0);
                assert(styled_bytes(s, one.drop_first()) =~= Seq::<u8>::empty());
                assert(end_style(s, one.drop_first()) == s);
                assert(styled_bytes(end_style(cur0, pre), one) =~= emit_style(
                    end_style(cur0, pre),
                    s,
                ) + seq![b]);
                assert(self.stream() =~= base + styled_bytes(cur0, post));
            }
            i = i + 1;
        }
        proof {
            assert(items@.subrange(0, n as int) =~= items@);
        }
    }

    /// How many flushes have happened since construction or the last
    /// `take_flushed`.
    pub fn flushes(&self) -> (r: usize)
        ensures
            r as nat == self.flush_count(),
    {
        self.flushes
    }

    /// Take the flushed bytes for the output boundary, resetting the flush
    /// count; pending bytes stay in the buffer.
    pub fn take_flushed(&mut self) -> (r: Vec<u8>)
        requires
            old(self).wf(),
        ensures
            final(self).wf(),
            r@ == old(self).flushed_bytes(),
            final(self).flushed_bytes() == Seq::<u8>::empty(),
            final(self).buffered() == old(self).buffered(),
            final(self).style_state() == old(self).style_state(),
            final(self).flush_count() == 0,
    {
        let mut taken: Vec<u8> = Vec::new();
        core::mem::swap(&mut taken, &mut self.flushed);
        self.flushes = 0;
        taken
    }

    /// Take every byte written so far, flushed and pending: the teardown
    /// flush. The writer is left empty with a zero flush count.
    pub fn take_all(&mut self) -> (r: Vec<u8>)
        requires
            old(self).wf(),
        ensures
            final(self).wf(),
            r@ == old(self).stream(),
            final(self).stream() == Seq::<u8>::empty(),
            final(self).flushed_bytes() == Seq::<u8>::empty(),
            final(self).style_state() == old(self).style_state(),
            final(self).flush_count() == 0,
    {
        let mut taken: Vec<u8> = Vec::new();
        core::mem::swap(&mut taken, &mut self.flushed);
        self.flushes = 0;
        let pending = fixed_buf_as_slice(&self.buf);
        let n = pending.len();
        let mut i: usize = 0;
        while i < n
            invariant
                n == pending@.len(),
                i <= n,
                pending@ == old(self).buffered(),
                taken@ == old(self).flushed_bytes() + old(self).buffered().subrange(0, i as int),
            decreases n - i,
        {
            taken.push(pending[i]);
            proof {
                assert(taken@ =~= old(self).flushed_bytes() + old(self).buffered().subrange(
                    0,
                    i + 1 as int,
                ));
            }
            i = i + 1;
        }
        fixed_buf_clear(&mut self.buf);
        proof {
            assert(old(self).buffered().subrange(0, old(self).buffered().len() as int) =~= old(
                self,
            ).buffered());
            assert(self.stream() =~= Seq::<u8>::empty());
        }
        taken
    }
}

} // verus!
