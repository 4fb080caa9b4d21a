//! The rolling buffer of the most recent keystrokes.
use vstd::prelude::*;
use crate::cli::{byte_cut, char_count_for_bytes, is_char_boundary, lemma_byte_len_take};
use crate::text::{byte_len, chars_of, copy_range, ends_with, has_suffix, str_byte_len, string_of, utf8_width};

verus! {

/// The last keystrokes typed, at most a given number of bytes of them.
#[derive(Clone, Debug)]
pub struct RollingBuffer {
    buffer: String,
    max_len: usize,
}

/// The bytes of a text are those of a prefix and of the rest.
pub proof fn lemma_byte_len_split(s: Seq<char>, k: int)
    requires
        0 <= k <= s.len(),
    ensures
        byte_len(s) == byte_len(s.take(k)) + byte_len(s.skip(k)),
    decreases k,
{
    if k == 0 {
        assert(s.skip(0) =~= s);
        assert(byte_len(s.take(0)) == 0);
    } else {
        lemma_byte_len_split(s.drop_first(), k - 1);
        assert(s.drop_first().take(k - 1) =~= s.take(k).drop_first());
        assert(s.drop_first().skip(k - 1) =~= s.skip(k));
        assert(s.take(k)[0] == s[0]);
    }
}

/// The content after `ch` is typed into a buffer holding `s` of capacity
/// `cap`: `s` with `ch` after it, its oldest characters dropped until it
/// takes at most `cap` bytes.
pub open spec fn after_push(s: Seq<char>, ch: char, cap: nat) -> Seq<char> {
    let p = s.push(ch);
    if byte_len(p) <= cap {
        p
    } else {
        p.skip(byte_cut(p, (byte_len(p) - cap) as nat))
    }
}

/// Typing `ch` into a buffer holding `s` leaves no partial character at
/// the cut.
pub open spec fn can_push(s: Seq<char>, ch: char, cap: nat) -> bool {
    let p = s.push(ch);
    byte_len(p) > cap ==> is_char_boundary(p, (byte_len(p) - cap) as nat)
}

/// Typing keeps the newest text: after `ch` is typed, the buffer holds an
/// end of the old content followed by `ch`, within its capacity, and ends
/// with `ch` itself whenever `ch` alone fits.
pub proof fn law_push_keeps_newest(s: Seq<char>, ch: char, cap: nat)
    requires
        can_push(s, ch, cap),
    ensures
        ends_with(s.push(ch), after_push(s, ch, cap)),
        byte_len(after_push(s, ch, cap)) <= cap,
        utf8_width(ch) <= cap ==> after_push(s, ch, cap).len() > 0 && after_push(s, ch, cap).last()
            == ch,
{
    let p = s.push(ch);
    let r = after_push(s, ch, cap);
    if byte_len(p) <= cap {
        assert(p.subrange(0, p.len() as int) =~= p);
    } else {
        let excess = (byte_len(p) - cap) as nat;
        let k = byte_cut(p, excess);
        assert(0 <= k <= p.len() && byte_len(p.take(k)) == excess);
        lemma_byte_len_split(p, k);
        assert(p.subrange(p.len() - r.len(), p.len() as int) =~= r);
        if utf8_width(ch) <= cap {
            if k == p.len() {
                assert(p.skip(k).len() == 0);
                assert(byte_len(p.skip(k)) == 0);
            }
            assert(r.last() == p.last());
        }
    }
}

impl View for RollingBuffer {
    type V = Seq<char>;

    closed spec fn view(&self) -> Seq<char> {
        self.buffer@
    }
}

impl RollingBuffer {
    /// The number of bytes the buffer keeps.
    pub closed spec fn capacity(&self) -> nat {
        self.max_len as nat
    }

    /// An empty buffer that keeps at most `max_len` bytes.
    pub fn new(max_len: usize) -> (b: Self)
        ensures
            b@ == Seq::<char>::empty(),
            b.capacity() == max_len,
    {
        RollingBuffer { buffer: String::new(), max_len }
    }

    /// Types `ch`: it goes at the end, and the oldest characters go until
    /// the buffer takes at most its capacity in bytes.
    pub fn push(&mut self, ch: char)
        requires
            can_push(old(self)@, ch, old(self).capacity()),
        ensures
            final(self)@ == after_push(old(self)@, ch, old(self).capacity()),
            final(self).capacity() == old(self).capacity(),
            byte_len(final(self)@) <= final(self).capacity(),
    {
        let mut chars = chars_of(self.buffer.as_str());
        chars.push(ch);
        let ghost p = chars@;
        let whole = string_of(&chars);
        let total = str_byte_len(whole.as_str());
        if total > self.max_len {
            let excess = total - self.max_len;
            let k = char_count_for_bytes(&chars, excess);
            let kept = copy_range(&chars, k, chars.len());
            proof {
                lemma_byte_len_split(p, k as int);
                assert(kept@ =~= p.skip(k as int));
            }
            self.buffer = string_of(&kept);
        } else {
            self.buffer = whole;
        }
    }

    /// Empties the buffer.
    pub fn clear(&mut self)
        ensures
            final(self)@ == Seq::<char>::empty(),
            final(self).capacity() == old(self).capacity(),
    {
        self.buffer = String::new();
    }

    /// The text in the buffer.
    pub fn content(&self) -> (s: &str)
        ensures
            s@ == self@,
    {
        self.buffer.as_str()
    }

    /// Whether the buffer ends with `s`.
    pub fn ends_with(&self, s: &str) -> (b: bool)
        ensures
            b == ends_with(self@, s@),
    {
        has_suffix(&chars_of(self.buffer.as_str()), &chars_of(s))
    }

    /// The number of bytes in the buffer.
    pub fn len(&self) -> (n: usize)
        ensures
            n == byte_len(self@),
    {
        str_byte_len(self.buffer.as_str())
    }

    /// Whether the buffer is empty.
    pub fn is_empty(&self) -> (b: bool)
        ensures
            b == (self@.len() == 0),
    {
        self.buffer.as_str().is_empty()
    }
}

} // verus!
