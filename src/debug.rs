//! A fixed-size buffer that collects a debug message.
use vstd::prelude::*;
use vstd::string::StringSliceAdditionalSpecFns;
use crate::text::{decode_text, utf8_text};

verus! {

broadcast use vstd::array::group_array_axioms;

/// Bytes a debug buffer holds.
pub const DEBUG_BUF_SIZE: usize = 1024;

pub struct DebugBuffer {
    data: [u8; 1024],
    len: usize,
}

impl DebugBuffer {
    /// The bytes written since the last `clear`, up to the buffer's size.
    pub closed spec fn contents(&self) -> Seq<u8> {
        self.data@.subrange(0, self.len as int)
    }

    pub closed spec fn wf(&self) -> bool {
        self.len <= DEBUG_BUF_SIZE
    }

    pub fn new() -> (r: Self)
        ensures
            r.wf(),
            r.contents() == Seq::<u8>::empty(),
    {
        let r = DebugBuffer { data: [0u8; 1024], len: 0 };
        assert(r.contents() =~= Seq::<u8>::empty());
        r
    }

    pub fn clear(&mut self)
        requires
            old(self).wf(),
        ensures
            final(self).wf(),
            final(self).contents() == Seq::<u8>::empty(),
    {
        self.len = 0;
        assert(self.contents() =~= Seq::<u8>::empty());
    }

    /// Appends the UTF-8 bytes of `s`, as many as there is room for.
    pub fn write_str(&mut self, s: &str)
        requires
            old(self).wf(),
        ensures
            final(self).wf(),
            ({
                let room = DEBUG_BUF_SIZE - old(self).contents().len();
                let n = if s.spec_bytes().len() < room {
                    s.spec_bytes().len() as int
                } else {
                    room
                };
                final(self).contents() == old(self).contents() + s.spec_bytes().subrange(0, n)
            }),
    {
        let bytes = s.as_bytes();
        let space = DEBUG_BUF_SIZE - self.len;
        let to_copy = if bytes.len() < space {
            bytes.len()
        } else {
            space
        };
        let ghost start = self.len;
        let ghost before = self.contents();
        let mut i: usize = 0;
        while i < to_copy
            invariant
                i <= to_copy,
                start + to_copy <= DEBUG_BUF_SIZE,
                to_copy <= bytes@.len(),
                self.len == start,
                self.data@.subrange(0, start as int) == before,
                forall|j: int| 0 <= j < i ==> self.data@[start + j] == bytes@[j],
            decreases to_copy - i,
        {
            self.data[self.len + i] = bytes[i];
            i = i + 1;
            assert(self.data@.subrange(0, start as int) =~= before);
        }
        self.len = self.len + to_copy;
        assert(self.contents() =~= before + bytes@.subrange(0, to_copy as int));
    }

    /// The collected text, or `[Invalid UTF-8]` when its bytes are not valid UTF-8.
    pub fn as_str(&self) -> (r: &str)
        requires
            self.wf(),
        ensures
            utf8_text(self.contents()) matches Some(t) ==> r@ == t,
            utf8_text(self.contents()) is None ==> r@ == "[Invalid UTF-8]"@,
    {
        let (used, _) = self.data.as_slice().split_at(self.len);
        match decode_text(used) {
            Some(t) => t,
            None => "[Invalid UTF-8]",
        }
    }
}

/// Replaces the message in `buf` with `s`, cut to the buffer's size.
pub fn debug_log(buf: &mut DebugBuffer, s: &str)
    requires
        old(buf).wf(),
    ensures
        final(buf).wf(),
        final(buf).contents() == s.spec_bytes().subrange(
            0,
            if s.spec_bytes().len() < DEBUG_BUF_SIZE {
                s.spec_bytes().len() as int
            } else {
                DEBUG_BUF_SIZE as int
            },
        ),
{
    buf.clear();
    buf.write_str(s);
    assert(buf.contents() =~= s.spec_bytes().subrange(
        0,
        if s.spec_bytes().len() < DEBUG_BUF_SIZE {
            s.spec_bytes().len() as int
        } else {
            DEBUG_BUF_SIZE as int
        },
    ));
}

} // verus!
