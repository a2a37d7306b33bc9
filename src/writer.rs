use vstd::prelude::*;
use vstd::utf8::*;

use crate::error::{UbjError, UbjResult};
use crate::markers::UbjMarker;
use crate::wire::{
    be32, be64, int_wire, long_string_error, marked_string_wire, string_fits, unmarked_string_wire,
};

verus! {

/// Emits markers and payloads into an in-memory sink. Every call either appends
/// the exact encoding of its argument or fails and leaves the sink as it was.
pub struct UbjWriter {
    out: Vec<u8>,
}

impl UbjWriter {
    /// The bytes written so far.
    pub closed spec fn written(&self) -> Seq<u8> {
        self.out@
    }

    /// A writer over an empty sink.
    pub fn new() -> (w: UbjWriter)
        ensures
            w.written() == Seq::<u8>::empty(),
    {
        UbjWriter { out: Vec::new() }
    }

    /// The bytes written so far.
    pub fn bytes(&self) -> (r: &Vec<u8>)
        ensures
            r@ == self.written(),
    {
        &self.out
    }

    /// Hands over the sink.
    pub fn into_bytes(self) -> (r: Vec<u8>)
        ensures
            r@ == self.written(),
    {
        self.out
    }

    /// Flushes the sink. An in-memory sink holds nothing back, so this succeeds
    /// and leaves the bytes as they are.
    pub fn flush(&mut self) -> (r: UbjResult<()>)
        ensures
            r is Ok,
            final(self).written() == old(self).written(),
    {
        Ok(())
    }

    fn write_payload(&mut self, payload: &[u8])
        ensures
            final(self).written() == old(self).written() + payload@,
    {
        self.out.extend_from_slice(payload);
    }

    fn write_marker(&mut self, marker: UbjMarker)
        ensures
            final(self).written() == old(self).written().push(marker.spec_byte()),
    {
        self.out.push(marker.byte());
    }

    fn write_marker_and_payload(&mut self, marker: UbjMarker, payload: &[u8])
        ensures
            final(self).written() == old(self).written() + seq![marker.spec_byte()] + payload@,
    {
        self.write_marker(marker);
        self.write_payload(payload);
        assert(old(self).written().push(marker.spec_byte()) =~= old(self).written() + seq![marker.spec_byte()]);
    }

    pub fn write_null(&mut self) -> (r: UbjResult<()>)
        ensures
            r is Ok,
            final(self).written() == old(self).written() + seq![0x5Au8],
    {
        self.write_marker(UbjMarker::Null);
        assert(old(self).written().push(0x5Au8) =~= old(self).written() + seq![0x5Au8]);
        Ok(())
    }

    pub fn write_bool(&mut self, v: bool) -> (r: UbjResult<()>)
        ensures
            r is Ok,
            final(self).written() == old(self).written() + seq![if v { 0x54u8 } else { 0x46u8 }],
    {
        let m = if v {
            UbjMarker::True
        } else {
            UbjMarker::False
        };
        self.write_marker(m);
        assert(old(self).written().push(m.spec_byte()) =~= old(self).written() + seq![m.spec_byte()]);
        Ok(())
    }

    pub fn write_int8(&mut self, v: i8) -> (r: UbjResult<()>)
        ensures
            r is Ok,
            final(self).written() == old(self).written() + seq![0x69u8, v as u8],
    {
        let payload = [v as u8];
        self.write_marker_and_payload(UbjMarker::Int8, &payload);
        assert(seq![0x69u8] + payload@ =~= seq![0x69u8, v as u8]);
        assert(old(self).written() + seq![0x69u8] + payload@ =~= old(self).written() + seq![0x69u8, v as u8]);
        Ok(())
    }

    /// Writes an unsigned byte; `Uint8` is taken as it is, since no narrower
    /// marker exists.
    pub fn write_uint8(&mut self, v: u8) -> (r: UbjResult<()>)
        ensures
            r is Ok,
            final(self).written() == old(self).written() + seq![0x55u8, v],
    {
        let payload = [v];
        self.write_marker_and_payload(UbjMarker::Uint8, &payload);
        assert(old(self).written() + seq![0x55u8] + payload@ =~= old(self).written() + seq![0x55u8, v]);
        Ok(())
    }

    /// Writes a 16-bit integer with the narrowest marker that holds it.
    pub fn write_int16(&mut self, v: i16) -> (r: UbjResult<()>)
        ensures
            r is Ok,
            final(self).written() == old(self).written() + int_wire(v as int),
    {
        if v >= -128 && v < 0 {
            self.write_int8(v as i8)
        } else if v >= 0 && v <= 255 {
            self.write_uint8(v as u8)
        } else {
            let x = v as u16;
            let payload = [(x >> 8) as u8, x as u8];
            self.write_marker_and_payload(UbjMarker::Int16, &payload);
            assert(old(self).written() + seq![0x49u8] + payload@ =~= old(self).written() + int_wire(v as int));
            Ok(())
        }
    }

    /// Writes a 32-bit integer with the narrowest marker that holds it.
    pub fn write_int32(&mut self, v: i32) -> (r: UbjResult<()>)
        ensures
            r is Ok,
            final(self).written() == old(self).written() + int_wire(v as int),
    {
        if v >= -32768 && v <= 32767 {
            self.write_int16(v as i16)
        } else {
            let x = v as u32;
            let payload = [(x >> 24) as u8, (x >> 16) as u8, (x >> 8) as u8, x as u8];
            self.write_marker_and_payload(UbjMarker::Int32, &payload);
            assert(old(self).written() + seq![0x6Cu8] + payload@ =~= old(self).written() + int_wire(v as int));
            Ok(())
        }
    }

    /// Writes a 64-bit integer with the narrowest marker that holds it.
    pub fn write_int64(&mut self, v: i64) -> (r: UbjResult<()>)
        ensures
            r is Ok,
            final(self).written() == old(self).written() + int_wire(v as int),
    {
        if v >= -2147483648 && v <= 2147483647 {
            self.write_int32(v as i32)
        } else {
            let x = v as u64;
            let payload = [
                (x >> 56) as u8,
                (x >> 48) as u8,
                (x >> 40) as u8,
                (x >> 32) as u8,
                (x >> 24) as u8,
                (x >> 16) as u8,
                (x >> 8) as u8,
                x as u8,
            ];
            self.write_marker_and_payload(UbjMarker::Int64, &payload);
            assert(old(self).written() + seq![0x4Cu8] + payload@ =~= old(self).written() + int_wire(v as int));
            Ok(())
        }
    }

    /// Writes a single-precision float given by its IEEE-754 bits.
    pub fn write_float32(&mut self, bits: u32) -> (r: UbjResult<()>)
        ensures
            r is Ok,
            final(self).written() == old(self).written() + seq![0x64u8] + be32(bits),
    {
        let payload = [(bits >> 24) as u8, (bits >> 16) as u8, (bits >> 8) as u8, bits as u8];
        self.write_marker_and_payload(UbjMarker::Float32, &payload);
        assert(payload@ =~= be32(bits));
        Ok(())
    }

    /// Writes a double-precision float given by its IEEE-754 bits.
    pub fn write_float64(&mut self, bits: u64) -> (r: UbjResult<()>)
        ensures
            r is Ok,
            final(self).written() == old(self).written() + seq![0x44u8] + be64(bits),
    {
        let payload = [
            (bits >> 56) as u8,
            (bits >> 48) as u8,
            (bits >> 40) as u8,
            (bits >> 32) as u8,
            (bits >> 24) as u8,
            (bits >> 16) as u8,
            (bits >> 8) as u8,
            bits as u8,
        ];
        self.write_marker_and_payload(UbjMarker::Float64, &payload);
        assert(payload@ =~= be64(bits));
        Ok(())
    }

    /// Writes an ASCII character; a code point above 127 is refused.
    pub fn write_char(&mut self, v: char) -> (r: UbjResult<()>)
        ensures
            v as u32 <= 127 ==> r is Ok && final(self).written() == old(self).written() + seq![
                0x43u8,
                v as u8,
            ],
            v as u32 > 127 ==> (r matches Err(UbjError::CharNotAscii(c)) && c == v as u32
                && final(self).written() == old(self).written()),
    {
        let code = v as u32;
        if code > 127 {
            Err(UbjError::CharNotAscii(code))
        } else {
            let payload = [code as u8];
            self.write_marker_and_payload(UbjMarker::Char, &payload);
            assert(old(self).written() + seq![0x43u8] + payload@ =~= old(self).written() + seq![0x43u8, v as u8]);
            Ok(())
        }
    }

    /// Writes a string without its marker: narrowed byte length, then the bytes.
    pub fn write_unmarked_string(&mut self, v: &str) -> (r: UbjResult<()>)
        ensures
            string_fits(v@) ==> r is Ok && final(self).written() == old(self).written()
                + unmarked_string_wire(v@),
            !string_fits(v@) ==> (r == Err::<(), UbjError>(long_string_error())
                && final(self).written() == old(self).written()),
    {
        let payload = v.as_bytes();
        let len = payload.len();
        if len as u64 <= i64::MAX as u64 {
            self.write_int64(len as i64);
            self.write_payload(payload);
            assert(old(self).written() + int_wire(len as int) + payload@ =~= old(self).written()
                + unmarked_string_wire(v@));
            Ok(())
        } else {
            Err(UbjError::Unsupported("strings longer than i64::MAX bytes"))
        }
    }

    /// Writes a string value: the `S` marker, then the string without marker.
    pub fn write_marked_string(&mut self, v: &str) -> (r: UbjResult<()>)
        ensures
            string_fits(v@) ==> r is Ok && final(self).written() == old(self).written()
                + marked_string_wire(v@),
            !string_fits(v@) ==> (r == Err::<(), UbjError>(long_string_error())
                && final(self).written() == old(self).written()),
    {
        let len = v.as_bytes().len();
        if len as u64 <= i64::MAX as u64 {
            self.write_marker(UbjMarker::Str);
            let r = self.write_unmarked_string(v);
            assert(old(self).written().push(0x53u8) + unmarked_string_wire(v@) =~= old(self).written()
                + marked_string_wire(v@));
            r
        } else {
            Err(UbjError::Unsupported("strings longer than i64::MAX bytes"))
        }
    }

    pub fn write_start_array(&mut self) -> (r: UbjResult<()>)
        ensures
            r is Ok,
            final(self).written() == old(self).written().push(0x5Bu8),
    {
        self.write_marker(UbjMarker::StartArray);
        Ok(())
    }

    pub fn write_end_array(&mut self) -> (r: UbjResult<()>)
        ensures
            r is Ok,
            final(self).written() == old(self).written().push(0x5Du8),
    {
        self.write_marker(UbjMarker::EndArray);
        Ok(())
    }

    pub fn write_start_object(&mut self) -> (r: UbjResult<()>)
        ensures
            r is Ok,
            final(self).written() == old(self).written().push(0x7Bu8),
    {
        self.write_marker(UbjMarker::StartObject);
        Ok(())
    }

    pub fn write_end_object(&mut self) -> (r: UbjResult<()>)
        ensures
            r is Ok,
            final(self).written() == old(self).written().push(0x7Du8),
    {
        self.write_marker(UbjMarker::EndObject);
        Ok(())
    }
}

} // verus!
