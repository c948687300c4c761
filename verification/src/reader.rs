//! A cursor over the bytes of one chunk.

use crate::error::AsepriteParseError;
use crate::wire::{spec_dword, spec_long, spec_word, string_bytes, string_end, string_fits};
use vstd::prelude::*;
use vstd::slice::{slice_subrange, slice_to_vec};
use vstd::utf8::{decode_utf8, valid_utf8};

verus! {

/// `std::string::FromUtf8Error`, the error of `String::from_utf8`.
/// Nothing is stated of its inside.
#[verifier::external_type_specification]
#[verifier::external_body]
pub struct ExFromUtf8Error(std::string::FromUtf8Error);

/// `String::from_utf8` accepts exactly the byte vectors that are valid
/// UTF-8, and the string it returns holds the characters they encode.
/// This is what the documentation of std says; it is trusted, not
/// proved.
pub assume_specification[ String::from_utf8 ](vec: Vec<u8>) -> (r: Result<
    String,
    std::string::FromUtf8Error,
>)
    ensures
        r is Ok <==> valid_utf8(vec@),
        r matches Ok(text) ==> text@ == decode_utf8(vec@),
;

/// A cursor over an immutable byte buffer. Every read either succeeds and
/// moves the cursor past what it read, or fails; none reads past the end
/// of the buffer.
pub struct AseReader<'a> {
    data: &'a [u8],
    pos: usize,
}

impl<'a> AseReader<'a> {
    #[verifier::type_invariant]
    spec fn in_bounds(&self) -> bool {
        self.pos <= self.data@.len()
    }

    /// The whole buffer that the cursor runs over.
    pub closed spec fn bytes(&self) -> Seq<u8> {
        self.data@
    }

    /// The number of bytes that were read or skipped so far.
    pub closed spec fn position(&self) -> int {
        self.pos as int
    }

    /// The number of bytes that are left to read.
    pub open spec fn remaining(&self) -> int {
        self.bytes().len() - self.position()
    }

    /// A cursor at the start of `data`.
    pub fn new(data: &'a [u8]) -> (reader: Self)
        ensures
            reader.bytes() == data@,
            reader.position() == 0,
    {
        AseReader { data, pos: 0 }
    }

    /// Reads one byte.
    pub fn byte(&mut self) -> (r: Result<u8, AsepriteParseError>)
        ensures
            final(self).bytes() == old(self).bytes(),
            match r {
                Ok(v) => {
                    &&& old(self).remaining() >= 1
                    &&& v == old(self).bytes()[old(self).position()]
                    &&& final(self).position() == old(self).position() + 1
                },
                Err(e) => {
                    &&& old(self).remaining() < 1
                    &&& e == AsepriteParseError::UnexpectedEof
                    &&& final(self).position() == old(self).position()
                },
            },
    {
        proof {
            use_type_invariant(&*self);
        }
        if self.data.len() - self.pos < 1 {
            return Err(AsepriteParseError::UnexpectedEof);
        }
        let v: u8 = self.data[self.pos];
        self.pos = self.pos + 1;
        Ok(v)
    }

    /// Reads an unsigned 16-bit number, little-endian.
    pub fn word(&mut self) -> (r: Result<u16, AsepriteParseError>)
        ensures
            final(self).bytes() == old(self).bytes(),
            match r {
                Ok(v) => {
                    &&& old(self).remaining() >= 2
                    &&& v == spec_word(old(self).bytes(), old(self).position())
                    &&& final(self).position() == old(self).position() + 2
                },
                Err(e) => {
                    &&& old(self).remaining() < 2
                    &&& e == AsepriteParseError::UnexpectedEof
                    &&& final(self).position() == old(self).position()
                },
            },
    {
        proof {
            use_type_invariant(&*self);
        }
        if self.data.len() - self.pos < 2 {
            return Err(AsepriteParseError::UnexpectedEof);
        }
        let b0: u16 = self.data[self.pos] as u16;
        let b1: u16 = self.data[self.pos + 1] as u16;
        self.pos = self.pos + 2;
        Ok(b0 + b1 * 0x100)
    }

    /// Reads an unsigned 32-bit number, little-endian.
    pub fn dword(&mut self) -> (r: Result<u32, AsepriteParseError>)
        ensures
            final(self).bytes() == old(self).bytes(),
            match r {
                Ok(v) => {
                    &&& old(self).remaining() >= 4
                    &&& v == spec_dword(old(self).bytes(), old(self).position())
                    &&& final(self).position() == old(self).position() + 4
                },
                Err(e) => {
                    &&& old(self).remaining() < 4
                    &&& e == AsepriteParseError::UnexpectedEof
                    &&& final(self).position() == old(self).position()
                },
            },
    {
        proof {
            use_type_invariant(&*self);
        }
        if self.data.len() - self.pos < 4 {
            return Err(AsepriteParseError::UnexpectedEof);
        }
        let b0: u32 = self.data[self.pos] as u32;
        let b1: u32 = self.data[self.pos + 1] as u32;
        let b2: u32 = self.data[self.pos + 2] as u32;
        let b3: u32 = self.data[self.pos + 3] as u32;
        self.pos = self.pos + 4;
        Ok(b0 + b1 * 0x100 + b2 * 0x1_0000 + b3 * 0x100_0000)
    }

    /// Reads a signed 32-bit number, little-endian two's complement.
    pub fn long(&mut self) -> (r: Result<i32, AsepriteParseError>)
        ensures
            final(self).bytes() == old(self).bytes(),
            match r {
                Ok(v) => {
                    &&& old(self).remaining() >= 4
                    &&& v == spec_long(old(self).bytes(), old(self).position())
                    &&& final(self).position() == old(self).position() + 4
                },
                Err(e) => {
                    &&& old(self).remaining() < 4
                    &&& e == AsepriteParseError::UnexpectedEof
                    &&& final(self).position() == old(self).position()
                },
            },
    {
        let v: u32 = self.dword()?;
        assert(v < 0x8000_0000u32 ==> v as i32 == v) by (bit_vector);
        assert(v >= 0x8000_0000u32 ==> v as i32 == v - 0x1_0000_0000) by (bit_vector);
        Ok(v as i32)
    }

    /// Reads a string: a 16-bit length, then as many bytes, which must be
    /// valid UTF-8. The length is checked before the encoding.
    pub fn string(&mut self) -> (r: Result<String, AsepriteParseError>)
        ensures
            final(self).bytes() == old(self).bytes(),
            match r {
                Ok(text) => {
                    &&& string_fits(old(self).bytes(), old(self).position())
                    &&& valid_utf8(string_bytes(old(self).bytes(), old(self).position()))
                    &&& text@ == decode_utf8(
                        string_bytes(old(self).bytes(), old(self).position()),
                    )
                    &&& final(self).position() == string_end(
                        old(self).bytes(),
                        old(self).position(),
                    )
                },
                Err(e) => {
                    &&& final(self).position() == old(self).position()
                    &&& if string_fits(old(self).bytes(), old(self).position()) {
                        &&& !valid_utf8(string_bytes(old(self).bytes(), old(self).position()))
                        &&& e == AsepriteParseError::InvalidUtf8
                    } else {
                        e == AsepriteParseError::UnexpectedEof
                    }
                },
            },
    {
        proof {
            use_type_invariant(&*self);
        }
        let start: usize = self.pos;
        let len: usize = self.word()? as usize;
        if self.data.len() - self.pos < len {
            self.pos = start;
            return Err(AsepriteParseError::UnexpectedEof);
        }
        let raw: Vec<u8> = slice_to_vec(slice_subrange(self.data, self.pos, self.pos + len));
        match String::from_utf8(raw) {
            Ok(text) => {
                self.pos = self.pos + len;
                Ok(text)
            },
            Err(_) => {
                self.pos = start;
                Err(AsepriteParseError::InvalidUtf8)
            },
        }
    }

    /// Skips `count` bytes that the format reserves.
    pub fn skip_reserved(&mut self, count: usize) -> (r: Result<(), AsepriteParseError>)
        ensures
            final(self).bytes() == old(self).bytes(),
            match r {
                Ok(_) => {
                    &&& old(self).remaining() >= count
                    &&& final(self).position() == old(self).position() + count
                },
                Err(e) => {
                    &&& old(self).remaining() < count
                    &&& e == AsepriteParseError::UnexpectedEof
                    &&& final(self).position() == old(self).position()
                },
            },
    {
        proof {
            use_type_invariant(&*self);
        }
        if self.data.len() - self.pos < count {
            return Err(AsepriteParseError::UnexpectedEof);
        }
        self.pos = self.pos + count;
        Ok(())
    }
}

} // verus!
