use vstd::prelude::*;

verus! {

/// Counts nested work against a fixed limit and remembers the deepest level
/// that was asked for (the high-water mark).
#[derive(Clone, Copy, Debug, PartialEq, Eq, Structural)]
pub struct LimitTracker {
    current: usize,
    high: usize,
    limit: usize,
}

impl LimitTracker {
    /// Well-formedness: the level in use never exceeds the limit.
    pub open spec fn wf(&self) -> bool {
        self.spec_current() <= self.spec_limit() && self.spec_current() <= self.spec_high()
    }

    pub closed spec fn spec_current(&self) -> usize {
        self.current
    }

    pub closed spec fn spec_high(&self) -> usize {
        self.high
    }

    pub closed spec fn spec_limit(&self) -> usize {
        self.limit
    }

    pub closed spec fn spec_new(limit: usize) -> LimitTracker {
        LimitTracker { current: 0, high: 0, limit }
    }

    pub proof fn lemma_spec_new(limit: usize)
        ensures
            LimitTracker::spec_new(limit).wf(),
            LimitTracker::spec_new(limit).spec_current() == 0,
            LimitTracker::spec_new(limit).spec_high() == 0,
            LimitTracker::spec_new(limit).spec_limit() == limit,
    {
    }

    /// A tracker at level zero.
    pub fn new(limit: usize) -> (r: LimitTracker)
        ensures
            r.wf(),
            r.spec_current() == 0,
            r.spec_high() == 0,
            r.spec_limit() == limit,
            r == LimitTracker::spec_new(limit),
    {
        LimitTracker { current: 0, high: 0, limit }
    }

    /// The level currently in use.
    pub fn current(&self) -> (r: usize)
        ensures
            r == self.spec_current(),
    {
        self.current
    }

    /// The deepest level that was asked for so far.
    pub fn high(&self) -> (r: usize)
        ensures
            r == self.spec_high(),
    {
        self.high
    }

    /// The limit this tracker was made with.
    pub fn limit(&self) -> (r: usize)
        ensures
            r == self.spec_limit(),
    {
        self.limit
    }

    /// Asks for one more level. Returns `true` when that would pass the
    /// limit; the level in use is then left as it was.
    pub fn check_and_increment(&mut self) -> (reached: bool)
        requires
            old(self).wf(),
        ensures
            final(self).wf(),
            reached == (old(self).spec_current() >= old(self).spec_limit()),
            final(self).spec_limit() == old(self).spec_limit(),
            final(self).spec_current() == if reached {
                old(self).spec_current()
            } else {
                (old(self).spec_current() + 1) as usize
            },
            final(self).spec_high() == if old(self).spec_high() as int >= old(self).spec_current()
                + 1 || old(self).spec_current() == usize::MAX {
                old(self).spec_high()
            } else {
                (old(self).spec_current() + 1) as usize
            },
    {
        if self.current == usize::MAX {
            return true;
        }
        let next = self.current + 1;
        if next > self.high {
            self.high = next;
        }
        if next > self.limit {
            true
        } else {
            self.current = next;
            false
        }
    }

    /// Gives back one level taken by a successful `check_and_increment`.
    pub fn decrement(&mut self)
        requires
            old(self).wf(),
            old(self).spec_current() > 0,
        ensures
            final(self).wf(),
            final(self).spec_current() == old(self).spec_current() - 1,
            final(self).spec_high() == old(self).spec_high(),
            final(self).spec_limit() == old(self).spec_limit(),
    {
        self.current = self.current - 1;
    }
}

/// A lexing or parsing diagnostic: a message, the source text it is about and
/// the byte offset of that text.
#[derive(Debug, PartialEq, Eq)]
pub struct Error {
    message: String,
    data: String,
    index: usize,
    is_eof: bool,
    is_limit: bool,
}

impl Error {
    pub closed spec fn spec_message(&self) -> Seq<char> {
        self.message@
    }

    pub closed spec fn spec_data(&self) -> Seq<char> {
        self.data@
    }

    pub closed spec fn spec_index(&self) -> usize {
        self.index
    }

    pub closed spec fn spec_is_eof(&self) -> bool {
        self.is_eof
    }

    pub closed spec fn spec_is_limit(&self) -> bool {
        self.is_limit
    }

    /// An error about `data`, found at byte offset `index`.
    pub fn with_loc(message: &str, data: String, index: usize) -> (r: Error)
        ensures
            r.spec_message() == message@,
            r.spec_data() == data@,
            r.spec_index() == index,
            !r.spec_is_eof(),
            !r.spec_is_limit(),
    {
        Error { message: String::from_str(message), data, index, is_eof: false, is_limit: false }
    }

    /// An error found at the end of the input.
    pub fn eof(message: &str, index: usize) -> (r: Error)
        ensures
            r.spec_message() == message@,
            r.spec_data() == "EOF"@,
            r.spec_index() == index,
            r.spec_is_eof(),
            !r.spec_is_limit(),
    {
        Error {
            message: String::from_str(message),
            data: String::from_str("EOF"),
            index,
            is_eof: true,
            is_limit: false,
        }
    }

    /// An error raised when a limit was reached.
    pub fn limit(message: &str, index: usize) -> (r: Error)
        ensures
            r.spec_message() == message@,
            r.spec_data() == Seq::<char>::empty(),
            r.spec_index() == index,
            !r.spec_is_eof(),
            r.spec_is_limit(),
    {
        Error {
            message: String::from_str(message),
            data: String::new(),
            index,
            is_eof: false,
            is_limit: true,
        }
    }

    pub fn message(&self) -> (r: &str)
        ensures
            r@ == self.spec_message(),
    {
        self.message.as_str()
    }

    pub fn data(&self) -> (r: &str)
        ensures
            r@ == self.spec_data(),
    {
        self.data.as_str()
    }

    pub fn index(&self) -> (r: usize)
        ensures
            r == self.spec_index(),
    {
        self.index
    }

    pub fn is_eof(&self) -> (r: bool)
        ensures
            r == self.spec_is_eof(),
    {
        self.is_eof
    }

    pub fn is_limit(&self) -> (r: bool)
        ensures
            r == self.spec_is_limit(),
    {
        self.is_limit
    }
}

} // verus!
