//! Byte offsets and display characters.
//!
//! A display character is one Unicode scalar value, but a carriage return
//! that is directly followed by a line feed forms one display character with
//! it. The mapper holds two tables for a source text: for each byte offset
//! the index of the display character that holds it, and for each display
//! character the byte offset where it starts.

use vstd::prelude::*;
use vstd::string::StringSliceAdditionalSpecFns;
use vstd::utf8::*;

verus! {

/// A display character starts at byte `i` of `bytes`: the byte is no
/// continuation byte, and it is not the line feed of a CR LF pair.
pub open spec fn is_unit_start(bytes: Seq<u8>, i: int) -> bool {
    &&& 0 <= i < bytes.len()
    &&& !is_continuation_byte(bytes[i])
    &&& !(bytes[i] == 0x0A && i > 0 && bytes[i - 1] == 0x0D)
}

#[derive(Debug, Clone)]
pub struct ByteCharMapper {
    byte_to_char: Vec<u32>,
    char_to_byte: Vec<u32>,
}

impl ByteCharMapper {
    /// The number of bytes of the source.
    pub closed spec fn spec_byte_len(&self) -> int {
        self.byte_to_char@.len() - 1
    }

    /// The number of display characters of the source.
    pub closed spec fn spec_char_len(&self) -> int {
        self.char_to_byte@.len() - 1
    }

    /// The index of the display character that holds byte `b`; for the end
    /// of the source, the number of display characters.
    pub closed spec fn unit_of(&self, b: int) -> int {
        self.byte_to_char@[b] as int
    }

    /// The byte offset where display character `c` starts; for the number
    /// of display characters, the end of the source.
    pub closed spec fn start_of(&self, c: int) -> int {
        self.char_to_byte@[c] as int
    }

    /// The two tables agree with each other: the starts rise strictly from
    /// 0 to the end of the source, and each byte lies in the display
    /// character that its entry names.
    pub open spec fn wf(&self) -> bool {
        &&& 0 <= self.spec_byte_len() <= u32::MAX
        &&& 0 <= self.spec_char_len() <= self.spec_byte_len()
        &&& self.start_of(0) == 0
        &&& self.start_of(self.spec_char_len()) == self.spec_byte_len()
        &&& forall|c: int, d: int|
            0 <= c < d <= self.spec_char_len() ==> #[trigger] self.start_of(c)
                < #[trigger] self.start_of(d)
        &&& forall|b: int|
            0 <= b <= self.spec_byte_len() ==> {
                &&& 0 <= #[trigger] self.unit_of(b) <= self.spec_char_len()
                &&& self.start_of(self.unit_of(b)) <= b
                &&& self.unit_of(b) < self.spec_char_len() ==> b < self.start_of(
                    self.unit_of(b) + 1,
                )
            }
    }

    /// The tables are those of `bytes`: a byte starts a display character
    /// exactly when the character that holds it starts there.
    pub open spec fn maps(&self, bytes: Seq<u8>) -> bool {
        &&& self.wf()
        &&& self.spec_byte_len() == bytes.len()
        &&& forall|i: int|
            0 <= i < bytes.len() ==> (is_unit_start(bytes, i) <==> self.start_of(
                #[trigger] self.unit_of(i),
            ) == i)
    }

    /// The tables of `source`.
    pub fn new(source: &str) -> (m: Self)
        requires
            source.spec_bytes().len() < u32::MAX,
        ensures
            m.maps(source.spec_bytes()),
    {
        let bytes = source.as_bytes();
        let n = bytes.len();
        let mut byte_to_char: Vec<u32> = Vec::new();
        let mut char_to_byte: Vec<u32> = Vec::new();
        proof {
            encode_utf8_valid_utf8(source@);
            if n > 0 {
                is_char_boundary_start_end_of_seq(bytes@);
                is_char_boundary_iff_not_is_continuation_byte(bytes@, 0);
            }
        }
        let mut i: usize = 0;
        while i < n
            invariant
                n == bytes@.len(),
                n < u32::MAX,
                0 <= i <= n,
                n > 0 ==> !is_continuation_byte(bytes@[0]),
                byte_to_char@.len() == i,
                char_to_byte@.len() <= i,
                i > 0 ==> char_to_byte@.len() >= 1 && char_to_byte@[0] == 0,
                forall|c: int|
                    0 <= c < char_to_byte@.len() ==> (#[trigger] char_to_byte@[c]) < i,
                forall|c: int, d: int|
                    0 <= c < d < char_to_byte@.len() ==> (#[trigger] char_to_byte@[c])
                        < (#[trigger] char_to_byte@[d]),
                forall|b: int|
                    0 <= b < i ==> {
                        &&& 0 <= (#[trigger] byte_to_char@[b]) < char_to_byte@.len()
                        &&& char_to_byte@[byte_to_char@[b] as int] <= b
                        &&& byte_to_char@[b] + 1 < char_to_byte@.len() ==> b
                            < char_to_byte@[byte_to_char@[b] + 1]
                        &&& is_unit_start(bytes@, b) <==> char_to_byte@[byte_to_char@[b] as int]
                            == b
                    },
            decreases n - i,
        {
            let b = bytes[i];
            let continuation = 0x80 <= b && b <= 0xBF;
            let paired_line_feed = b == 0x0A && i > 0 && bytes[i - 1] == 0x0D;
            let ghost before = char_to_byte@;
            if !continuation && !paired_line_feed {
                char_to_byte.push(i as u32);
            }
            let unit = char_to_byte.len() - 1;
            byte_to_char.push(unit as u32);
            assert forall|x: int| 0 <= x < i + 1 implies {
                &&& 0 <= (#[trigger] byte_to_char@[x]) < char_to_byte@.len()
                &&& char_to_byte@[byte_to_char@[x] as int] <= x
                &&& byte_to_char@[x] + 1 < char_to_byte@.len() ==> x
                    < char_to_byte@[byte_to_char@[x] + 1]
                &&& is_unit_start(bytes@, x) <==> char_to_byte@[byte_to_char@[x] as int] == x
            } by {
                if x < i {
                    let u = byte_to_char@[x] as int;
                    assert(char_to_byte@[u] == before[u]);
                    if u + 1 < before.len() {
                        assert(char_to_byte@[u + 1] == before[u + 1]);
                    }
                }
            }
            i += 1;
        }
        let units = char_to_byte.len();
        char_to_byte.push(n as u32);
        byte_to_char.push(units as u32);
        let m = ByteCharMapper { byte_to_char, char_to_byte };
        proof {
            assert forall|b: int| 0 <= b <= m.spec_byte_len() implies {
                &&& 0 <= #[trigger] m.unit_of(b) <= m.spec_char_len()
                &&& m.start_of(m.unit_of(b)) <= b
                &&& m.unit_of(b) < m.spec_char_len() ==> b < m.start_of(m.unit_of(b) + 1)
            } by {}
            assert forall|i: int| 0 <= i < bytes@.len() implies (is_unit_start(bytes@, i)
                <==> m.start_of(#[trigger] m.unit_of(i)) == i) by {}
        }
        m
    }

    /// The number of bytes of the source.
    pub fn byte_len(&self) -> (n: u32)
        requires
            self.wf(),
        ensures
            n == self.spec_byte_len(),
    {
        (self.byte_to_char.len() - 1) as u32
    }

    /// The number of display characters of the source.
    pub fn char_len(&self) -> (n: u32)
        requires
            self.wf(),
        ensures
            n == self.spec_char_len(),
    {
        (self.char_to_byte.len() - 1) as u32
    }

    /// The display character that holds `byte`; an offset past the end
    /// counts as the end.
    pub fn byte_to_char(&self, byte: u32) -> (c: u32)
        requires
            self.wf(),
        ensures
            c == self.unit_of(
                if byte <= self.spec_byte_len() {
                    byte as int
                } else {
                    self.spec_byte_len()
                },
            ),
    {
        let len = self.byte_len();
        let b = if byte <= len {
            byte
        } else {
            len
        };
        self.byte_to_char[b as usize]
    }

    /// The byte offset where display character `ch` starts; an index past
    /// the last character counts as the end.
    pub fn char_to_byte(&self, ch: u32) -> (b: u32)
        requires
            self.wf(),
        ensures
            b == self.start_of(
                if ch <= self.spec_char_len() {
                    ch as int
                } else {
                    self.spec_char_len()
                },
            ),
    {
        let len = self.char_len();
        let c = if ch <= len {
            ch
        } else {
            len
        };
        self.char_to_byte[c as usize]
    }

    /// Both ends of a byte range as display characters, the smaller first.
    pub fn byte_range_to_char(&self, from: u32, to: u32) -> (r: (u32, u32))
        requires
            self.wf(),
        ensures
            r.0 <= r.1,
            ({
                let a = self.unit_of(self.clamp_byte(from as int));
                let b = self.unit_of(self.clamp_byte(to as int));
                r == if a <= b {
                    (a as u32, b as u32)
                } else {
                    (b as u32, a as u32)
                }
            }),
    {
        let a = self.byte_to_char(from);
        let b = self.byte_to_char(to);
        if a <= b {
            (a, b)
        } else {
            (b, a)
        }
    }

    /// Both ends of a range of display characters as byte offsets, the
    /// smaller first.
    pub fn char_range_to_byte(&self, from: u32, to: u32) -> (r: (u32, u32))
        requires
            self.wf(),
        ensures
            r.0 <= r.1,
            ({
                let a = self.start_of(self.clamp_char(from as int));
                let b = self.start_of(self.clamp_char(to as int));
                r == if a <= b {
                    (a as u32, b as u32)
                } else {
                    (b as u32, a as u32)
                }
            }),
    {
        let a = self.char_to_byte(from);
        let b = self.char_to_byte(to);
        if a <= b {
            (a, b)
        } else {
            (b, a)
        }
    }

    pub open spec fn clamp_byte(&self, b: int) -> int {
        if b <= self.spec_byte_len() {
            b
        } else {
            self.spec_byte_len()
        }
    }

    pub open spec fn clamp_char(&self, c: int) -> int {
        if c <= self.spec_char_len() {
            c
        } else {
            self.spec_char_len()
        }
    }

    /// Going from a display character to its first byte and back gives the
    /// same character.
    pub proof fn lemma_char_round_trip(&self, c: int)
        requires
            self.wf(),
            0 <= c <= self.spec_char_len(),
        ensures
            0 <= self.start_of(c) <= self.spec_byte_len(),
            self.unit_of(self.start_of(c)) == c,
    {
        let b = self.start_of(c);
        if c > 0 {
            assert(self.start_of(0) < self.start_of(c));
        }
        if c < self.spec_char_len() {
            assert(self.start_of(c) < self.start_of(self.spec_char_len()));
        }
        let u = self.unit_of(b);
        if u < c {
            if u + 1 < c {
                assert(self.start_of(u + 1) < self.start_of(c));
            }
        } else if u > c {
            assert(self.start_of(c) < self.start_of(u));
        }
    }

    /// Going from a byte offset that starts a display character, or from
    /// the end of the source, to the character and back gives the same
    /// offset.
    pub proof fn lemma_boundary_round_trip(&self, bytes: Seq<u8>, b: int)
        requires
            self.maps(bytes),
            is_unit_start(bytes, b) || b == bytes.len(),
        ensures
            self.start_of(self.unit_of(b)) == b,
    {
        if b == bytes.len() {
            let u = self.unit_of(b);
            if u < self.spec_char_len() {
                assert(self.start_of(u + 1) <= self.start_of(self.spec_char_len())) by {
                    if u + 1 < self.spec_char_len() {
                        assert(self.start_of(u + 1) < self.start_of(self.spec_char_len()));
                    }
                }
            }
        }
    }

    /// A byte inside a display character maps to that character: the one
    /// whose first byte is the nearest start at or before it.
    pub proof fn lemma_inside_unit(&self, bytes: Seq<u8>, b: int)
        requires
            self.maps(bytes),
            0 <= b < bytes.len(),
        ensures
            0 <= self.unit_of(b) < self.spec_char_len(),
            self.start_of(self.unit_of(b)) <= b < self.start_of(self.unit_of(b) + 1),
            is_unit_start(bytes, self.start_of(self.unit_of(b))),
            forall|j: int| self.start_of(self.unit_of(b)) < j <= b ==> !is_unit_start(bytes, j),
    {
        let u = self.unit_of(b);
        assert(u < self.spec_char_len()) by {
            if u == self.spec_char_len() {
                assert(self.start_of(u) == self.spec_byte_len());
            }
        }
        let s = self.start_of(u);
        self.lemma_char_round_trip(u);
        assert(self.unit_of(s) == u);
        assert forall|j: int| s < j <= b implies !is_unit_start(bytes, j) by {
            let v = self.unit_of(j);
            if self.start_of(v) == j {
                if v <= u {
                    if v < u {
                        assert(self.start_of(v) < self.start_of(u));
                    }
                } else {
                    if u + 1 < v {
                        assert(self.start_of(u + 1) < self.start_of(v));
                    }
                }
            }
        }
    }

    /// In a text, every start of a display character is a boundary between
    /// scalar values.
    pub proof fn lemma_unit_start_is_char_boundary(source: &str, i: int)
        requires
            is_unit_start(source.spec_bytes(), i),
        ensures
            is_char_boundary(source.spec_bytes(), i),
    {
        encode_utf8_valid_utf8(source@);
        is_char_boundary_iff_not_is_continuation_byte(source.spec_bytes(), i);
    }
}

} // verus!
