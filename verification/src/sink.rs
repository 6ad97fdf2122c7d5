use vstd::prelude::*;

use crate::error::SaveError;

verus! {

/// A byte sink that counts the bytes it has accepted, so that the position of every
/// object in the output is known when the object is written.
pub struct CountingWrite<W> {
    inner: W,
    bytes_written: usize,
}

/// Hands `buf` to the sink's `std::io::Write::write`; what it returns depends on the sink.
#[verifier::external_body]
fn sink_write<W: std::io::Write>(sink: &mut W, buf: &[u8]) -> (r: Result<usize, std::io::Error>) {
    sink.write(buf)
}

/// Hands `buf` to the sink's `std::io::Write::write_all`; what it returns depends on the sink.
#[verifier::external_body]
fn sink_write_all<W: std::io::Write>(sink: &mut W, buf: &[u8]) -> (r: Result<(), std::io::Error>) {
    sink.write_all(buf)
}

/// Calls the sink's `std::io::Write::flush`; what it returns depends on the sink.
#[verifier::external_body]
fn sink_flush<W: std::io::Write>(sink: &mut W) -> (r: Result<(), std::io::Error>) {
    sink.flush()
}

impl<W> CountingWrite<W> {
    /// The wrapped sink.
    pub closed spec fn sink(&self) -> W {
        self.inner
    }

    /// The number of bytes counted so far.
    pub closed spec fn count(&self) -> usize {
        self.bytes_written
    }

    /// Wraps `inner`, starting the count at `bytes_written`.
    pub fn new(inner: W, bytes_written: usize) -> (c: CountingWrite<W>)
        ensures
            c.sink() == inner,
            c.count() == bytes_written,
    {
        CountingWrite { inner, bytes_written }
    }

    /// The number of bytes counted so far.
    pub fn bytes_written(&self) -> (n: usize)
        ensures
            n == self.count(),
    {
        self.bytes_written
    }

    /// The wrapped sink.
    pub fn inner(&self) -> (r: &W)
        ensures
            *r == self.sink(),
    {
        &self.inner
    }

    /// Unwraps the sink.
    pub fn into_inner(self) -> (r: W)
        ensures
            r == self.sink(),
    {
        self.inner
    }

    /// The current position as a cross-reference offset, which has 32 bits.
    pub fn checked_position_u32(&self) -> (r: Result<u32, SaveError>)
        ensures
            self.count() <= u32::MAX ==> r == Ok::<u32, SaveError>(self.count() as u32),
            self.count() > u32::MAX ==> (r matches Err(e) && e is InvalidInput),
    {
        if self.bytes_written <= 0xFFFF_FFFF {
            Ok(self.bytes_written as u32)
        } else {
            Err(SaveError::InvalidInput("PDF object offset exceeds the supported u32 range"))
        }
    }
}

/// The count and the result of a write that started at `count`, given what the sink
/// reported: the reported number of bytes is counted and handed on, unless the count would
/// pass `usize::MAX`, which is `InvalidInput` with the count left as it was; a sink error is
/// handed on and counts nothing.
pub open spec fn accounted(count: usize, reported: Result<usize, std::io::Error>) -> (
    usize,
    Result<usize, SaveError>,
) {
    match reported {
        Ok(n) => if count + n <= usize::MAX {
            ((count + n) as usize, Ok(n))
        } else {
            (count, Err(SaveError::InvalidInput("PDF output byte count exceeds the supported range")))
        },
        Err(e) => (count, Err(SaveError::Sink(e))),
    }
}

/// A sink's success or failure, as a save reports it: its error is handed on as `Sink`.
pub open spec fn handed_on(reported: Result<(), std::io::Error>) -> Result<(), SaveError> {
    match reported {
        Ok(()) => Ok(()),
        Err(e) => Err(SaveError::Sink(e)),
    }
}

/// The count and the result of writing a whole buffer of `len` bytes that fits the
/// counter, from `count`, given what the sink reported: its success counts the buffer.
pub open spec fn settled_all(count: usize, len: nat, reported: Result<(), std::io::Error>) -> (
    usize,
    Result<(), SaveError>,
) {
    match reported {
        Ok(()) => ((count + len) as usize, Ok(())),
        Err(e) => (count, Err(SaveError::Sink(e))),
    }
}

/// Counts what a sink reported for a write that started at `count`.
pub fn account(count: usize, reported: Result<usize, std::io::Error>) -> (r: (
    usize,
    Result<usize, SaveError>,
))
    ensures
        r == accounted(count, reported),
{
    match reported {
        Ok(bytes) => {
            if bytes <= usize::MAX - count {
                (count + bytes, Ok(bytes))
            } else {
                (count, Err(SaveError::InvalidInput("PDF output byte count exceeds the supported range")))
            }
        },
        Err(e) => (count, Err(SaveError::Sink(e))),
    }
}

impl<W: std::io::Write> CountingWrite<W> {
    /// Writes some of `buffer` to the sink and counts what the sink reports as written.
    /// A count that would pass `usize::MAX` is an error and leaves the counter as it was.
    pub fn write(&mut self, buffer: &[u8]) -> (r: Result<usize, SaveError>)
        ensures
            exists|reported: Result<usize, std::io::Error>|
                (final(self).count(), r) == #[trigger] accounted(old(self).count(), reported),
    {
        let reported = sink_write(&mut self.inner, buffer);
        let ghost seen = reported;
        let (count, result) = account(self.bytes_written, reported);
        self.bytes_written = count;
        assert((self.count(), result) == accounted(old(self).count(), seen));
        result
    }

    /// Writes all of `buffer`. A count that would pass `usize::MAX` is rejected before
    /// anything reaches the sink; otherwise the sink's success counts the whole buffer, and
    /// its error is handed on with the count unchanged.
    pub fn write_all(&mut self, buffer: &[u8]) -> (r: Result<(), SaveError>)
        ensures
            old(self).count() + buffer@.len() > usize::MAX ==> r == Err::<(), SaveError>(
                SaveError::InvalidInput("PDF output byte count exceeds the supported range"),
            ),
            old(self).count() + buffer@.len() > usize::MAX ==> *final(self) == *old(self),
            old(self).count() + buffer@.len() <= usize::MAX ==> exists|reported: Result<(), std::io::Error>|
                (final(self).count(), r) == #[trigger] settled_all(
                    old(self).count(),
                    buffer@.len(),
                    reported,
                ),
    {
        if buffer.len() > usize::MAX - self.bytes_written {
            return Err(SaveError::InvalidInput("PDF output byte count exceeds the supported range"));
        }
        let total = self.bytes_written + buffer.len();
        let reported = sink_write_all(&mut self.inner, buffer);
        let ghost seen = reported;
        let r = match reported {
            Ok(()) => {
                self.bytes_written = total;
                Ok(())
            },
            Err(e) => Err(SaveError::Sink(e)),
        };
        assert((self.count(), r) == settled_all(old(self).count(), buffer@.len(), seen));
        r
    }

    /// Flushes the sink: its success is `Ok`, its error is handed on; the count stays.
    pub fn flush(&mut self) -> (r: Result<(), SaveError>)
        ensures
            final(self).count() == old(self).count(),
            exists|reported: Result<(), std::io::Error>| r == #[trigger] handed_on(reported),
    {
        let reported = sink_flush(&mut self.inner);
        let ghost seen = reported;
        let r = match reported {
            Ok(()) => Ok(()),
            Err(e) => Err(SaveError::Sink(e)),
        };
        assert(r == handed_on(seen));
        r
    }
}

/// An output written into memory, with the count of the bytes it accepted.
pub type Output = CountingWrite<Vec<u8>>;

/// An intended output: the bytes to write, and whether writing them completes the task.
/// When it does not, the bytes are what is written before the failure.
pub type Piece = (Seq<u8>, bool);

/// A piece that always completes.
pub open spec fn done(b: Seq<u8>) -> Piece {
    (b, true)
}

/// Writing `a`, then `b` if `a` completed.
pub open spec fn then(a: Piece, b: Piece) -> Piece {
    if a.1 {
        (a.0 + b.0, b.1)
    } else {
        a
    }
}

/// `after` is `before` once the bytes of `piece` have been handed over, as far as they go:
/// a count that would pass `usize::MAX` stops the output short, and `succeeded` holds
/// exactly when the piece completed without such a stop.
pub open spec fn wrote(before: Output, after: Output, piece: Piece, succeeded: bool) -> bool {
    let fits = before.count() + piece.0.len() <= usize::MAX;
    &&& before.count() <= after.count() <= before.count() + piece.0.len()
    &&& after.sink()@ == before.sink()@ + piece.0.take(after.count() - before.count())
    &&& fits ==> after.count() == before.count() + piece.0.len()
    &&& succeeded == (piece.1 && fits)
}

/// Writing two pieces one after the other writes their combination.
pub proof fn lemma_wrote_then(a: Output, b: Output, c: Output, p: Piece, q: Piece, s1: bool, s2: bool)
    requires
        wrote(a, b, p, s1),
        s1 ==> wrote(b, c, q, s2),
        !s1 ==> c == b && !s2,
    ensures
        wrote(a, c, then(p, q), s2),
{
    let t = then(p, q);
    if s1 {
        assert(p.1);
        let k = c.count() - b.count();
        assert(b.count() - a.count() == p.0.len());
        assert(t.0.take(b.count() - a.count() + k) =~= p.0 + q.0.take(k));
        assert(c.sink()@ =~= a.sink()@ + t.0.take(c.count() - a.count()));
    } else if p.1 {
        let k = b.count() - a.count();
        assert(t.0.take(k) =~= p.0.take(k));
        assert(b.sink()@ =~= a.sink()@ + t.0.take(c.count() - a.count()));
    }
}

/// Writing nothing.
pub proof fn lemma_wrote_nothing(a: Output)
    ensures
        wrote(a, a, done(Seq::empty()), true),
{
    assert(a.sink()@ + Seq::<u8>::empty().take(0) =~= a.sink()@);
}

impl CountingWrite<Vec<u8>> {
    /// Appends `bytes` to the in-memory output. A count that would pass `usize::MAX` is
    /// rejected before anything is appended.
    pub fn put(&mut self, bytes: &[u8]) -> (r: Result<(), SaveError>)
        ensures
            wrote(*old(self), *final(self), done(bytes@), r is Ok),
            r matches Err(e) ==> e is InvalidInput,
    {
        if bytes.len() > usize::MAX - self.bytes_written {
            assert(self.inner@ =~= self.inner@ + bytes@.take(0));
            return Err(SaveError::InvalidInput("PDF output byte count exceeds the supported range"));
        }
        self.bytes_written = self.bytes_written + bytes.len();
        self.inner.extend_from_slice(bytes);
        assert(self.inner@ =~= old(self).inner@ + bytes@.take(bytes@.len() as int));
        Ok(())
    }
}


/// `w` continues `p`: when `p` completes, `w` starts with its bytes; when it stops, `w` is `p`.
pub open spec fn extends(w: Piece, p: Piece) -> bool {
    &&& p.1 ==> p.0.len() <= w.0.len() && w.0.take(p.0.len() as int) == p.0
    &&& !p.1 ==> w == p
}

pub proof fn lemma_extends_refl(p: Piece)
    ensures
        extends(p, p),
{
    assert(p.0.take(p.0.len() as int) =~= p.0);
}

pub proof fn lemma_extends_then(a: Piece, b: Piece)
    ensures
        extends(then(a, b), a),
{
    if a.1 {
        assert((a.0 + b.0).take(a.0.len() as int) =~= a.0);
    }
}

pub proof fn lemma_extends_trans(w: Piece, v: Piece, p: Piece)
    requires
        extends(w, v),
        extends(v, p),
    ensures
        extends(w, p),
{
    if p.1 && v.1 {
        assert(w.0.take(p.0.len() as int) =~= w.0.take(v.0.len() as int).take(p.0.len() as int));
    }
}

pub proof fn lemma_extends_cong(a: Piece, x: Piece, y: Piece)
    requires
        extends(x, y),
    ensures
        extends(then(a, x), then(a, y)),
{
    if a.1 && y.1 {
        assert((a.0 + x.0).take((a.0 + y.0).len() as int) =~= a.0 + x.0.take(y.0.len() as int));
    }
}

/// Output that stopped short of a piece also stopped short of anything that continues it.
pub proof fn lemma_wrote_extend(a: Output, b: Output, p: Piece, w: Piece)
    requires
        wrote(a, b, p, false),
        extends(w, p),
    ensures
        wrote(a, b, w, false),
{
    if p.1 {
        let k = b.count() - a.count();
        assert(w.0.take(k) =~= p.0.take(k)) by {
            assert(w.0.take(k) =~= w.0.take(p.0.len() as int).take(k));
        }
    }
}

pub proof fn lemma_then_assoc(a: Piece, b: Piece, c: Piece)
    ensures
        then(then(a, b), c) == then(a, then(b, c)),
{
    if a.1 && b.1 {
        assert((a.0 + b.0) + c.0 =~= a.0 + (b.0 + c.0));
    }
}

pub proof fn lemma_then_empty(p: Piece)
    ensures
        then(p, done(Seq::empty())) == p,
        then(done(Seq::empty()), p) == p,
{
    if p.1 {
        assert(p.0 + Seq::<u8>::empty() =~= p.0);
    }
    assert(Seq::<u8>::empty() + p.0 =~= p.0);
}

/// A step that stopped short leaves the whole output stopped short.
pub proof fn lemma_step_fail(
    f0: Output,
    fi: Output,
    fnew: Output,
    before: Piece,
    partial: Piece,
    step: Piece,
    whole: Piece,
)
    requires
        wrote(f0, fi, before, true),
        wrote(fi, fnew, partial, false),
        extends(step, partial),
        extends(whole, then(before, step)),
    ensures
        wrote(f0, fnew, whole, false),
        fi.count() + partial.0.len() > usize::MAX ==> f0.count() + whole.0.len() > usize::MAX,
{
    lemma_wrote_then(f0, fi, fnew, before, partial, true, false);
    lemma_extends_cong(before, step, partial);
    lemma_extends_trans(whole, then(before, step), then(before, partial));
    lemma_wrote_extend(f0, fnew, then(before, partial), whole);
    lemma_extends_len(whole, then(before, partial));
}

/// A piece is at least as long as any piece it continues.
pub proof fn lemma_extends_len(w: Piece, p: Piece)
    requires
        extends(w, p),
    ensures
        w.0.len() >= p.0.len(),
{
}

/// `bytes` holds `pat` from position `pos`.
pub open spec fn begins_at(bytes: Seq<u8>, pos: int, pat: Seq<u8>) -> bool {
    0 <= pos && pos + pat.len() <= bytes.len() && bytes.subrange(pos, pos + pat.len()) == pat
}

/// What `bytes` holds at a position, it still holds there once more bytes follow, and a
/// prefix set before it moves it by the prefix's length.
pub proof fn lemma_begins_at_moves(pre: Seq<u8>, bytes: Seq<u8>, more: Seq<u8>, pos: int, pat: Seq<u8>)
    requires
        begins_at(bytes, pos, pat),
    ensures
        begins_at(pre + bytes + more, pre.len() + pos, pat),
        begins_at(bytes + more, pos, pat),
        begins_at(pre + bytes, pre.len() + pos, pat),
{
    let a = pre.len() + pos;
    assert((pre + bytes + more).subrange(a, a + pat.len()) =~= bytes.subrange(pos, pos + pat.len()));
    assert((bytes + more).subrange(pos, pos + pat.len()) =~= bytes.subrange(pos, pos + pat.len()));
    assert((pre + bytes).subrange(a, a + pat.len()) =~= bytes.subrange(pos, pos + pat.len()));
}

/// A sequence begins with its first part.
pub proof fn lemma_begins_with(pat: Seq<u8>, rest: Seq<u8>)
    ensures
        begins_at(pat + rest, 0, pat),
{
    assert((pat + rest).subrange(0, pat.len() as int) =~= pat);
}

} // verus!
