//! Splitting a message into ordered chunks of bounded length.
use vstd::prelude::*;
use crate::text::{chars_of, string_of_range};

verus! {

/// The largest number of characters that one delivered chunk may hold.
pub const MAX_CHUNK_LEN: usize = 4000;

/// The views of a sequence of strings.
pub open spec fn views(v: Seq<String>) -> Seq<Seq<char>> {
    v.map_values(|s: String| s@)
}

/// The chunks of `s`: maximal pieces of `max` characters, in order, the last
/// one holding what remains.
pub open spec fn chunks_of(s: Seq<char>, max: nat) -> Seq<Seq<char>>
    decreases s.len(),
{
    if s.len() == 0 || max == 0 {
        Seq::empty()
    } else if s.len() <= max {
        seq![s]
    } else {
        seq![s.take(max as int)] + chunks_of(s.skip(max as int), max)
    }
}

/// The concatenation of a sequence of character sequences.
pub open spec fn joined(parts: Seq<Seq<char>>) -> Seq<char>
    decreases parts.len(),
{
    if parts.len() == 0 {
        Seq::empty()
    } else {
        parts[0] + joined(parts.skip(1))
    }
}

/// Splits `msg` into its chunks of at most `max_len` characters.
pub fn split_chunks(msg: &str, max_len: usize) -> (r: Vec<String>)
    requires
        max_len > 0,
    ensures
        views(r@) == chunks_of(msg@, max_len as nat),
{
    let chars = chars_of(msg);
    let n = chars.len();
    let mut r: Vec<String> = Vec::new();
    let mut i: usize = 0;
    assert(chars@.subrange(0, n as int) =~= msg@);
    assert(views(r@) =~= Seq::<Seq<char>>::empty());
    assert(views(r@) + chunks_of(msg@, max_len as nat) =~= chunks_of(msg@, max_len as nat));
    while i < n
        invariant
            n == chars@.len(),
            chars@ == msg@,
            i <= n,
            max_len > 0,
            views(r@) + chunks_of(chars@.subrange(i as int, n as int), max_len as nat)
                == chunks_of(msg@, max_len as nat),
        decreases n - i,
    {
        let rest = Ghost(chars@.subrange(i as int, n as int));
        let end: usize = if n - i <= max_len { n } else { i + max_len };
        let chunk = string_of_range(&chars, i, end);
        proof {
            if n - i > max_len {
                assert(rest@.take(max_len as int) =~= chars@.subrange(i as int, end as int));
                assert(rest@.skip(max_len as int) =~= chars@.subrange(end as int, n as int));
            } else {
                assert(rest@ =~= chars@.subrange(i as int, end as int));
                assert(chars@.subrange(end as int, n as int) =~= Seq::<char>::empty());
            }
        }
        let ghost before = r@;
        r.push(chunk);
        assert(views(r@) =~= views(before).push(chunk@));
        i = end;
        proof {
            let done = views(r@);
            assert(done + chunks_of(chars@.subrange(i as int, n as int), max_len as nat) =~= views(before)
                + chunks_of(rest@, max_len as nat));
        }
    }
    assert(chars@.subrange(n as int, n as int) =~= Seq::<char>::empty());
    assert(views(r@) + Seq::<Seq<char>>::empty() =~= views(r@));
    r
}

/// Splitting loses nothing: the chunks of a message, joined in order, give the
/// message back; every chunk is non-empty and holds at most `max` characters;
/// an empty message has no chunk.
pub proof fn lemma_chunks_lossless(s: Seq<char>, max: nat)
    requires
        max > 0,
    ensures
        joined(chunks_of(s, max)) == s,
        forall|k: int| 0 <= k < chunks_of(s, max).len()
            ==> 0 < #[trigger] chunks_of(s, max)[k].len() <= max,
        s.len() == 0 ==> chunks_of(s, max).len() == 0,
    decreases s.len(),
{
    let c = chunks_of(s, max);
    if s.len() == 0 {
        assert(c.len() == 0);
    } else if s.len() <= max {
        assert(c.skip(1) =~= Seq::<Seq<char>>::empty());
        assert(joined(c.skip(1)) == Seq::<char>::empty());
        assert(s + Seq::<char>::empty() =~= s);
    } else {
        let rest = s.skip(max as int);
        lemma_chunks_lossless(rest, max);
        assert(c.skip(1) =~= chunks_of(rest, max));
        assert(s.take(max as int) + rest =~= s);
        assert forall|k: int| 0 <= k < c.len() implies 0 < #[trigger] c[k].len() <= max by {
            if k > 0 {
                assert(c[k] == chunks_of(rest, max)[k - 1]);
            }
        }
    }
}


/// How the delivery of a chunked message ended.
#[derive(PartialEq, Eq, Structural, Debug, Clone, Copy)]
pub enum DispatchReport {
    /// Every chunk was delivered.
    Complete { sent: usize },
    /// A delivery failed; the chunks before it were delivered, none after.
    Partial { sent: usize },
}

/// The progress of delivering the chunks of one message, strictly in order:
/// the next chunk goes out only once the one before it was delivered, and
/// nothing goes out after a failure.
#[derive(Debug, Clone, Copy)]
pub struct Dispatch {
    pub total: usize,
    pub sent: usize,
    pub failed: bool,
}

impl Dispatch {
    pub open spec fn wf(&self) -> bool {
        self.sent <= self.total
    }

    /// The delivery of `total` chunks, none sent yet.
    pub fn new(total: usize) -> (r: Dispatch)
        ensures
            r.wf(),
            r.total == total,
            r.sent == 0,
            !r.failed,
    {
        Dispatch { total, sent: 0, failed: false }
    }

    /// The index of the chunk to send next, if any is to be sent.
    pub fn next_chunk(&self) -> (r: Option<usize>)
        ensures
            r == (if !self.failed && self.sent < self.total { Some(self.sent) } else { None }),
    {
        if !self.failed && self.sent < self.total {
            Some(self.sent)
        } else {
            None
        }
    }

    /// Records the outcome of sending the next chunk.
    pub fn record(&mut self, delivered: bool)
        requires
            old(self).wf(),
            !old(self).failed,
            old(self).sent < old(self).total,
        ensures
            final(self).wf(),
            final(self).total == old(self).total,
            delivered ==> final(self).sent == old(self).sent + 1 && !final(self).failed,
            !delivered ==> final(self).sent == old(self).sent && final(self).failed,
    {
        if delivered {
            self.sent = self.sent + 1;
        } else {
            self.failed = true;
        }
    }

    /// How the delivery ended, once no chunk is left to send.
    pub fn report(&self) -> (r: DispatchReport)
        ensures
            r == (if self.failed {
                DispatchReport::Partial { sent: self.sent }
            } else {
                DispatchReport::Complete { sent: self.sent }
            }),
    {
        if self.failed {
            DispatchReport::Partial { sent: self.sent }
        } else {
            DispatchReport::Complete { sent: self.sent }
        }
    }
}

} // verus!
