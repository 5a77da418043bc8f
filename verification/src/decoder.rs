use vstd::prelude::*;

use crate::value::{
    lemma_pair_views_push, lemma_views_push, pair_views, views, PackStreamResult, PackStreamStruct,
    SpecValue, UnpackError, Value,
};
use crate::wire::{
    be_val, lemma_be_val_bounds, lemma_next_bounds, lemma_pow256_le, pow256, signed16, signed32,
    signed64, signed8, spec_take_list, spec_take_map, spec_take_struct, spec_take_text,
    spec_unpack_items, spec_unpack_next, spec_unpack_pairs, spec_unpack_run, tail_from,
};

verus! {

/// Copies the bytes of `v` between `from` and `to` into a fresh vector.
fn copy_range(v: &Vec<u8>, from: usize, to: usize) -> (out: Vec<u8>)
    requires
        from <= to <= v.len(),
    ensures
        out@ == v@.subrange(from as int, to as int),
{
    let mut out: Vec<u8> = Vec::new();
    let mut i: usize = from;
    while i < to
        invariant
            from <= i <= to <= v.len(),
            out@ == v@.subrange(from as int, i as int),
        decreases to - i,
    {
        out.push(v[i]);
        proof {
            assert(v@.subrange(from as int, (i + 1) as int) =~= v@.subrange(
                from as int,
                i as int,
            ).push(v@[i as int]));
        }
        i = i + 1;
    }
    out
}

/// Relies on `String::from_utf8`: it returns `Ok` exactly when the
/// bytes are valid UTF-8, and the string then holds their decoding.
#[verifier::external_body]
fn utf8_to_string(bytes: Vec<u8>) -> (r: Option<std::string::String>)
    ensures
        r is Some <==> vstd::utf8::valid_utf8(bytes@),
        r matches Some(s) ==> s@ == vstd::utf8::decode_utf8(bytes@),
{
    match std::string::String::from_utf8(bytes) {
        Ok(s) => Some(s),
        Err(_) => None,
    }
}

/// A cursor over one fully materialized byte buffer, together with
/// the sequence of values decoded from it so far.
pub struct Decoder {
    pub stream: Vec<u8>,
    pub pos: usize,
    pub buffer: Vec<Value>,
}

impl Decoder {
    /// The cursor never points past the end of the buffer.
    pub open spec fn wf(self) -> bool {
        self.pos <= self.stream@.len()
    }

    /// The bytes not yet consumed.
    pub open spec fn remaining(self) -> Seq<u8> {
        self.stream@.subrange(self.pos as int, self.stream@.len() as int)
    }

    pub fn new(stream: Vec<u8>) -> (d: Decoder)
        ensures
            d.wf(),
            d.stream@ == stream@,
            d.pos == 0,
            d.buffer@.len() == 0,
            d.remaining() == stream@,
    {
        let d = Decoder { stream, pos: 0, buffer: Vec::new() };
        proof {
            assert(d.remaining() =~= d.stream@);
        }
        d
    }

    /// Reads a `width`-byte unsigned big-endian integer and advances
    /// past it.
    fn read_be(&mut self, width: usize) -> (r: PackStreamResult<u64>)
        requires
            old(self).wf(),
            1 <= width <= 8,
        ensures
            final(self).wf(),
            final(self).stream == old(self).stream,
            final(self).buffer == old(self).buffer,
            match r {
                Ok(n) => {
                    &&& old(self).remaining().len() >= width
                    &&& n as int == be_val(old(self).remaining().subrange(0, width as int))
                    &&& final(self).pos == old(self).pos + width
                },
                Err(e) => {
                    &&& e == UnpackError::EndOfInput
                    &&& old(self).remaining().len() < width
                    &&& *final(self) == *old(self)
                },
            },
    {
        if self.stream.len() - self.pos < width {
            return Err(UnpackError::EndOfInput);
        }
        let ghost s = self.remaining();
        let mut n: u64 = 0;
        let mut i: usize = 0;
        while i < width
            invariant
                self.wf(),
                self.stream == old(self).stream,
                self.buffer == old(self).buffer,
                i <= width <= 8,
                self.pos == old(self).pos + i,
                old(self).pos + width <= self.stream.len(),
                s == old(self).remaining(),
                s.len() >= width,
                n as int == be_val(s.subrange(0, i as int)),
                n < pow256(i as nat),
            decreases width - i,
        {
            let b = self.stream[self.pos];
            proof {
                assert(s.subrange(0, (i + 1) as int).drop_last() =~= s.subrange(0, i as int));
                assert(s.subrange(0, (i + 1) as int).last() == s[i as int]);
                assert(s[i as int] == self.stream@[self.pos as int]);
                lemma_pow256_le((i + 1) as nat, 8);
                assert(pow256(8) == 0x1_0000_0000_0000_0000) by {
                    reveal_with_fuel(pow256, 9);
                }
            }
            n = n * 256 + (b as u64);
            self.pos = self.pos + 1;
            i = i + 1;
        }
        proof {
            assert(s.subrange(0, width as int) =~= s.subrange(0, i as int));
        }
        Ok(n)
    }

    /// Reads a `width`-byte big-endian length or count prefix and
    /// advances past it.
    fn content_len(&mut self, width: usize) -> (r: PackStreamResult<usize>)
        requires
            old(self).wf(),
            1 <= width <= 4,
        ensures
            final(self).wf(),
            final(self).stream == old(self).stream,
            final(self).buffer == old(self).buffer,
            match r {
                Ok(n) => {
                    &&& old(self).remaining().len() >= width
                    &&& n as int == be_val(old(self).remaining().subrange(0, width as int))
                    &&& final(self).pos == old(self).pos + width
                },
                Err(e) => {
                    &&& e == UnpackError::EndOfInput
                    &&& old(self).remaining().len() < width
                    &&& *final(self) == *old(self)
                },
            },
    {
        match self.read_be(width) {
            Ok(n) => {
                proof {
                    lemma_be_val_bounds(old(self).remaining().subrange(0, width as int));
                    lemma_pow256_le(width as nat, 4);
                    assert(pow256(4) == 0x1_0000_0000) by {
                        reveal_with_fuel(pow256, 5);
                    }
                }
                Ok(n as usize)
            },
            Err(e) => Err(e),
        }
    }

    /// Reads the one-byte payload of an `Int8`.
    fn unpack_int8(&mut self) -> (r: PackStreamResult<Value>)
        requires
            old(self).wf(),
        ensures
            final(self).wf(),
            final(self).stream == old(self).stream,
            final(self).buffer == old(self).buffer,
            match r {
                Ok(v) => {
                    &&& old(self).remaining().len() >= 1
                    &&& v@ == crate::value::SpecValue::Int8(
                        signed8(be_val(old(self).remaining().subrange(0, 1))),
                    )
                    &&& final(self).pos == old(self).pos + 1
                },
                Err(e) => {
                    &&& e == UnpackError::EndOfInput
                    &&& old(self).remaining().len() < 1
                    &&& *final(self) == *old(self)
                },
            },
    {
        match self.read_be(1) {
            Ok(n) => {
                proof {
                    lemma_be_val_bounds(old(self).remaining().subrange(0, 1));
                    assert(pow256(1) == 0x100) by {
                        reveal_with_fuel(pow256, 2);
                    }
                }
                let b = n as u8;
                let v: i8 = if b < 0x80 {
                    b as i8
                } else {
                    -((0xFFu8 - b) as i8) - 1
                };
                Ok(Value::Int8(v))
            },
            Err(e) => Err(e),
        }
    }

    /// Reads the two-byte big-endian payload of an `Int16`.
    fn unpack_int16(&mut self) -> (r: PackStreamResult<Value>)
        requires
            old(self).wf(),
        ensures
            final(self).wf(),
            final(self).stream == old(self).stream,
            final(self).buffer == old(self).buffer,
            match r {
                Ok(v) => {
                    &&& old(self).remaining().len() >= 2
                    &&& v@ == crate::value::SpecValue::Int16(
                        signed16(be_val(old(self).remaining().subrange(0, 2))),
                    )
                    &&& final(self).pos == old(self).pos + 2
                },
                Err(e) => {
                    &&& e == UnpackError::EndOfInput
                    &&& old(self).remaining().len() < 2
                    &&& *final(self) == *old(self)
                },
            },
    {
        match self.read_be(2) {
            Ok(n) => {
                proof {
                    lemma_be_val_bounds(old(self).remaining().subrange(0, 2));
                    assert(pow256(2) == 0x1_0000) by {
                        reveal_with_fuel(pow256, 3);
                    }
                }
                let b = n as u16;
                let v: i16 = if b < 0x8000 {
                    b as i16
                } else {
                    -((0xFFFFu16 - b) as i16) - 1
                };
                Ok(Value::Int16(v))
            },
            Err(e) => Err(e),
        }
    }

    /// Reads the four-byte big-endian payload of an `Int32`.
    fn unpack_int32(&mut self) -> (r: PackStreamResult<Value>)
        requires
            old(self).wf(),
        ensures
            final(self).wf(),
            final(self).stream == old(self).stream,
            final(self).buffer == old(self).buffer,
            match r {
                Ok(v) => {
                    &&& old(self).remaining().len() >= 4
                    &&& v@ == crate::value::SpecValue::Int32(
                        signed32(be_val(old(self).remaining().subrange(0, 4))),
                    )
                    &&& final(self).pos == old(self).pos + 4
                },
                Err(e) => {
                    &&& e == UnpackError::EndOfInput
                    &&& old(self).remaining().len() < 4
                    &&& *final(self) == *old(self)
                },
            },
    {
        match self.read_be(4) {
            Ok(n) => {
                proof {
                    lemma_be_val_bounds(old(self).remaining().subrange(0, 4));
                    assert(pow256(4) == 0x1_0000_0000) by {
                        reveal_with_fuel(pow256, 5);
                    }
                }
                let b = n as u32;
                let v: i32 = if b < 0x8000_0000 {
                    b as i32
                } else {
                    -((0xFFFF_FFFFu32 - b) as i32) - 1
                };
                Ok(Value::Int32(v))
            },
            Err(e) => Err(e),
        }
    }

    /// Reads the eight-byte big-endian payload of an `Int64`.
    fn unpack_int64(&mut self) -> (r: PackStreamResult<Value>)
        requires
            old(self).wf(),
        ensures
            final(self).wf(),
            final(self).stream == old(self).stream,
            final(self).buffer == old(self).buffer,
            match r {
                Ok(v) => {
                    &&& old(self).remaining().len() >= 8
                    &&& v@ == crate::value::SpecValue::Int64(
                        signed64(be_val(old(self).remaining().subrange(0, 8))),
                    )
                    &&& final(self).pos == old(self).pos + 8
                },
                Err(e) => {
                    &&& e == UnpackError::EndOfInput
                    &&& old(self).remaining().len() < 8
                    &&& *final(self) == *old(self)
                },
            },
    {
        match self.read_be(8) {
            Ok(n) => {
                let v: i64 = if n < 0x8000_0000_0000_0000 {
                    n as i64
                } else {
                    -((0xFFFF_FFFF_FFFF_FFFFu64 - n) as i64) - 1
                };
                Ok(Value::Int64(v))
            },
            Err(e) => Err(e),
        }
    }

    /// Reads the eight-byte big-endian payload of a `Float64`. The
    /// value carries the raw IEEE-754 bits.
    fn unpack_float64(&mut self) -> (r: PackStreamResult<Value>)
        requires
            old(self).wf(),
        ensures
            final(self).wf(),
            final(self).stream == old(self).stream,
            final(self).buffer == old(self).buffer,
            match r {
                Ok(v) => {
                    &&& old(self).remaining().len() >= 8
                    &&& v@ == crate::value::SpecValue::Float64(
                        be_val(old(self).remaining().subrange(0, 8)),
                    )
                    &&& final(self).pos == old(self).pos + 8
                },
                Err(e) => {
                    &&& e == UnpackError::EndOfInput
                    &&& old(self).remaining().len() < 8
                    &&& *final(self) == *old(self)
                },
            },
    {
        match self.read_be(8) {
            Ok(n) => Ok(Value::Float64(n)),
            Err(e) => Err(e),
        }
    }

    /// Reads `n` payload bytes as text. Bytes that are not valid UTF-8
    /// give `Unreadable` for this slot; the declared bytes are consumed
    /// either way.
    fn read_text(&mut self, n: usize, tiny: bool) -> (r: PackStreamResult<Value>)
        requires
            old(self).wf(),
        ensures
            final(self).wf(),
            final(self).stream == old(self).stream,
            final(self).buffer == old(self).buffer,
            match r {
                Ok(v) => spec_take_text(old(self).remaining(), n as int, tiny) matches Some(sc)
                    && v@ == sc.0 && final(self).pos == old(self).pos + sc.1,
                Err(e) => {
                    &&& e == UnpackError::EndOfInput
                    &&& spec_take_text(old(self).remaining(), n as int, tiny) is None
                    &&& *final(self) == *old(self)
                },
            },
    {
        if self.stream.len() - self.pos < n {
            return Err(UnpackError::EndOfInput);
        }
        let bytes = copy_range(&self.stream, self.pos, self.pos + n);
        proof {
            assert(bytes@ =~= old(self).remaining().subrange(0, n as int));
        }
        self.pos = self.pos + n;
        match utf8_to_string(bytes) {
            Some(text) => {
                if tiny {
                    Ok(Value::TinyText(text))
                } else {
                    Ok(Value::String(text))
                }
            },
            None => Ok(Value::Unreadable),
        }
    }

    /// Reads a tiny text value: the marker's low nibble is the length.
    fn unpack_tiny_text(&mut self, header_byte: u8) -> (r: PackStreamResult<Value>)
        requires
            old(self).wf(),
            0x80 <= header_byte < 0x90,
        ensures
            final(self).wf(),
            final(self).stream == old(self).stream,
            final(self).buffer == old(self).buffer,
            match r {
                Ok(v) => spec_take_text(old(self).remaining(), header_byte - 0x80, true)
                    matches Some(sc) && v@ == sc.0 && final(self).pos == old(self).pos + sc.1,
                Err(e) => {
                    &&& e == UnpackError::EndOfInput
                    &&& spec_take_text(old(self).remaining(), header_byte - 0x80, true) is None
                    &&& *final(self) == *old(self)
                },
            },
    {
        self.read_text((header_byte - 0x80) as usize, true)
    }

    /// Reads `count` consecutive values by re-entering the decoder
    /// once per value.
    fn read_values(&mut self, count: usize) -> (r: PackStreamResult<Vec<Value>>)
        requires
            old(self).wf(),
        ensures
            final(self).wf(),
            final(self).stream == old(self).stream,
            final(self).buffer == old(self).buffer,
            old(self).pos <= final(self).pos,
            match r {
                Ok(vals) => spec_unpack_items(old(self).remaining(), count as int) matches Some(vc)
                    && views(vals@) == vc.0 && final(self).pos == old(self).pos + vc.1,
                Err(e) => {
                    &&& e == UnpackError::EndOfInput
                    &&& spec_unpack_items(old(self).remaining(), count as int) is None
                },
            },
        decreases old(self).remaining().len(), 2nat,
    {
        let mut vals: Vec<Value> = Vec::new();
        let mut i: usize = 0;
        proof {
            assert(views(vals@) =~= Seq::<SpecValue>::empty());
            match spec_unpack_items(self.remaining(), (count - i) as int) {
                Some(rest) => {
                    assert(views(vals@) + rest.0 =~= rest.0);
                },
                None => {},
            }
        }
        while i < count
            invariant
                self.wf(),
                self.stream == old(self).stream,
                self.buffer == old(self).buffer,
                old(self).pos <= self.pos,
                i <= count,
                vals@.len() == i,
                ({
                    let done = views(vals@);
                    let all = spec_unpack_items(old(self).remaining(), count as int);
                    match spec_unpack_items(self.remaining(), (count - i) as int) {
                        Some(rest) => all matches Some(allv) && allv.0 == done + rest.0 && allv.1
                            == self.pos - old(self).pos + rest.1,
                        None => all is None,
                    }
                }),
            decreases count - i,
        {
            let ghost s_here = self.remaining();
            let ghost done_here = views(vals@);
            match self.read_value() {
                Ok(v) => {
                    proof {
                        lemma_next_bounds(s_here);
                        let c = spec_unpack_next(s_here)->Some_0.1;
                        assert(self.remaining() =~= tail_from(s_here, c));
                        lemma_views_push(vals@, v);
                        match spec_unpack_items(self.remaining(), (count - (i + 1)) as int) {
                            Some(rest) => {
                                assert(done_here + (seq![v@] + rest.0) =~= done_here.push(v@)
                                    + rest.0);
                            },
                            None => {},
                        }
                    }
                    vals.push(v);
                    i = i + 1;
                },
                Err(e) => {
                    return Err(e);
                },
            }
        }
        proof {
            let done = views(vals@);
            assert(done + Seq::<SpecValue>::empty() =~= done);
        }
        Ok(vals)
    }

    /// Reads the struct tag byte, then the declared number of field
    /// values.
    fn unpack_struct(&mut self, field_count: usize) -> (r: PackStreamResult<Value>)
        requires
            old(self).wf(),
        ensures
            final(self).wf(),
            final(self).stream == old(self).stream,
            final(self).buffer == old(self).buffer,
            old(self).pos <= final(self).pos,
            match r {
                Ok(v) => spec_take_struct(old(self).remaining(), field_count as int) matches Some(
                    sc,
                ) && v@ == sc.0 && final(self).pos == old(self).pos + sc.1,
                Err(e) => {
                    &&& e == UnpackError::EndOfInput
                    &&& spec_take_struct(old(self).remaining(), field_count as int) is None
                },
            },
        decreases old(self).remaining().len(), 2nat,
    {
        if self.pos >= self.stream.len() {
            return Err(UnpackError::EndOfInput);
        }
        let ghost t = self.remaining();
        let sig = self.stream[self.pos];
        self.pos = self.pos + 1;
        proof {
            assert(self.remaining() =~= t.subrange(1, t.len() as int));
            assert(sig == t[0]);
        }
        match self.read_values(field_count) {
            Ok(fields) => Ok(Value::Struct(PackStreamStruct::new(sig, Box::new(fields)))),
            Err(e) => Err(e),
        }
    }

    /// Reads a tiny struct value: the marker's low nibble is the field
    /// count.
    fn unpack_tiny_struct(&mut self, header_byte: u8) -> (r: PackStreamResult<Value>)
        requires
            old(self).wf(),
            0xB0 <= header_byte < 0xC0,
        ensures
            final(self).wf(),
            final(self).stream == old(self).stream,
            final(self).buffer == old(self).buffer,
            old(self).pos <= final(self).pos,
            match r {
                Ok(v) => spec_take_struct(old(self).remaining(), header_byte - 0xB0) matches Some(
                    sc,
                ) && v@ == sc.0 && final(self).pos == old(self).pos + sc.1,
                Err(e) => {
                    &&& e == UnpackError::EndOfInput
                    &&& spec_take_struct(old(self).remaining(), header_byte - 0xB0) is None
                },
            },
        decreases old(self).remaining().len(), 3nat,
    {
        self.unpack_struct((header_byte - 0xB0) as usize)
    }

    /// Reads `map_length` key/value pairs by re-entering the decoder
    /// twice per pair.
    fn map_population(&mut self, map_length: usize) -> (r: PackStreamResult<Vec<(Value, Value)>>)
        requires
            old(self).wf(),
        ensures
            final(self).wf(),
            final(self).stream == old(self).stream,
            final(self).buffer == old(self).buffer,
            old(self).pos <= final(self).pos,
            match r {
                Ok(tuples) => spec_unpack_pairs(old(self).remaining(), map_length as int)
                    matches Some(pc) && pair_views(tuples@) == pc.0 && final(self).pos == old(
                    self,
                ).pos + pc.1,
                Err(e) => {
                    &&& e == UnpackError::EndOfInput
                    &&& spec_unpack_pairs(old(self).remaining(), map_length as int) is None
                },
            },
        decreases old(self).remaining().len(), 2nat,
    {
        let mut tuples: Vec<(Value, Value)> = Vec::new();
        let mut i: usize = 0;
        proof {
            assert(pair_views(tuples@) =~= Seq::<(SpecValue, SpecValue)>::empty());
            match spec_unpack_pairs(self.remaining(), (map_length - i) as int) {
                Some(rest) => {
                    assert(pair_views(tuples@) + rest.0 =~= rest.0);
                },
                None => {},
            }
        }
        while i < map_length
            invariant
                self.wf(),
                self.stream == old(self).stream,
                self.buffer == old(self).buffer,
                old(self).pos <= self.pos,
                i <= map_length,
                tuples@.len() == i,
                ({
                    let done = pair_views(tuples@);
                    let all = spec_unpack_pairs(old(self).remaining(), map_length as int);
                    match spec_unpack_pairs(self.remaining(), (map_length - i) as int) {
                        Some(rest) => all matches Some(allp) && allp.0 == done + rest.0 && allp.1
                            == self.pos - old(self).pos + rest.1,
                        None => all is None,
                    }
                }),
            decreases map_length - i,
        {
            let ghost s_here = self.remaining();
            let ghost done_here = pair_views(tuples@);
            let key = match self.read_value() {
                Ok(k) => k,
                Err(e) => {
                    return Err(e);
                },
            };
            proof {
                lemma_next_bounds(s_here);
                let ck = spec_unpack_next(s_here)->Some_0.1;
                assert(self.remaining() =~= tail_from(s_here, ck));
            }
            let ghost s_mid = self.remaining();
            let value = match self.read_value() {
                Ok(v) => v,
                Err(e) => {
                    return Err(e);
                },
            };
            proof {
                lemma_next_bounds(s_mid);
                let cv = spec_unpack_next(s_mid)->Some_0.1;
                assert(self.remaining() =~= tail_from(s_mid, cv));
                lemma_pair_views_push(tuples@, key, value);
                match spec_unpack_pairs(self.remaining(), (map_length - (i + 1)) as int) {
                    Some(rest) => {
                        assert(done_here + (seq![(key@, value@)] + rest.0) =~= done_here.push(
                            (key@, value@),
                        ) + rest.0);
                    },
                    None => {},
                }
            }
            tuples.push((key, value));
            i = i + 1;
        }
        proof {
            let done = pair_views(tuples@);
            assert(done + Seq::<(SpecValue, SpecValue)>::empty() =~= done);
        }
        Ok(tuples)
    }

    /// Reads a tiny map value: the marker's low nibble is the pair
    /// count.
    fn unpack_tiny_map(&mut self, header_byte: u8) -> (r: PackStreamResult<Value>)
        requires
            old(self).wf(),
            0xA0 <= header_byte < 0xB0,
        ensures
            final(self).wf(),
            final(self).stream == old(self).stream,
            final(self).buffer == old(self).buffer,
            old(self).pos <= final(self).pos,
            match r {
                Ok(v) => spec_take_map(old(self).remaining(), header_byte - 0xA0, true)
                    matches Some(sc) && v@ == sc.0 && final(self).pos == old(self).pos + sc.1,
                Err(e) => {
                    &&& e == UnpackError::EndOfInput
                    &&& spec_take_map(old(self).remaining(), header_byte - 0xA0, true) is None
                },
            },
        decreases old(self).remaining().len(), 3nat,
    {
        match self.map_population((header_byte - 0xA0) as usize) {
            Ok(tuples) => Ok(Value::TinyMap(tuples)),
            Err(e) => Err(e),
        }
    }

    /// Reads a sized map value's pairs, after its pair-count prefix.
    fn unpack_map(&mut self, map_length: usize) -> (r: PackStreamResult<Value>)
        requires
            old(self).wf(),
        ensures
            final(self).wf(),
            final(self).stream == old(self).stream,
            final(self).buffer == old(self).buffer,
            old(self).pos <= final(self).pos,
            match r {
                Ok(v) => spec_take_map(old(self).remaining(), map_length as int, false)
                    matches Some(sc) && v@ == sc.0 && final(self).pos == old(self).pos + sc.1,
                Err(e) => {
                    &&& e == UnpackError::EndOfInput
                    &&& spec_take_map(old(self).remaining(), map_length as int, false) is None
                },
            },
        decreases old(self).remaining().len(), 3nat,
    {
        match self.map_population(map_length) {
            Ok(tuples) => Ok(Value::SizedMap(tuples)),
            Err(e) => Err(e),
        }
    }

    /// Reads a list value: the next `n` bytes form a bounded sub-stream
    /// that a fresh decoder must consume exactly.
    fn read_list(&mut self, n: usize, tiny: bool) -> (r: PackStreamResult<Value>)
        requires
            old(self).wf(),
        ensures
            final(self).wf(),
            final(self).stream == old(self).stream,
            final(self).buffer == old(self).buffer,
            old(self).pos <= final(self).pos,
            match r {
                Ok(v) => spec_take_list(old(self).remaining(), n as int, tiny) matches Some(sc)
                    && v@ == sc.0 && final(self).pos == old(self).pos + sc.1,
                Err(e) => {
                    &&& e == UnpackError::EndOfInput
                    &&& spec_take_list(old(self).remaining(), n as int, tiny) is None
                },
            },
        decreases old(self).remaining().len(), 4nat,
    {
        if self.stream.len() - self.pos < n {
            return Err(UnpackError::EndOfInput);
        }
        let region = copy_range(&self.stream, self.pos, self.pos + n);
        proof {
            assert(region@ =~= old(self).remaining().subrange(0, n as int));
        }
        let mut sub = Decoder::new(region);
        match sub.unpack_all() {
            Ok(_) => {
                proof {
                    assert(views(sub.buffer@) =~= spec_unpack_run(
                        old(self).remaining().subrange(0, n as int),
                    ).0);
                }
                self.pos = self.pos + n;
                if tiny {
                    Ok(Value::TinyList(sub.buffer))
                } else {
                    Ok(Value::List(sub.buffer))
                }
            },
            Err(e) => Err(e),
        }
    }

    /// Reads a tiny list value: the marker's low nibble is the byte
    /// length of the sub-stream.
    fn unpack_tiny_list(&mut self, header_byte: u8) -> (r: PackStreamResult<Value>)
        requires
            old(self).wf(),
            0x90 <= header_byte < 0xA0,
        ensures
            final(self).wf(),
            final(self).stream == old(self).stream,
            final(self).buffer == old(self).buffer,
            old(self).pos <= final(self).pos,
            match r {
                Ok(v) => spec_take_list(old(self).remaining(), header_byte - 0x90, true)
                    matches Some(sc) && v@ == sc.0 && final(self).pos == old(self).pos + sc.1,
                Err(e) => {
                    &&& e == UnpackError::EndOfInput
                    &&& spec_take_list(old(self).remaining(), header_byte - 0x90, true) is None
                },
            },
        decreases old(self).remaining().len(), 5nat,
    {
        self.read_list((header_byte - 0x90) as usize, true)
    }

    /// Reads a sized list value's sub-stream, after its length prefix.
    fn unpack_list(&mut self, list_length: usize) -> (r: PackStreamResult<Value>)
        requires
            old(self).wf(),
        ensures
            final(self).wf(),
            final(self).stream == old(self).stream,
            final(self).buffer == old(self).buffer,
            old(self).pos <= final(self).pos,
            match r {
                Ok(v) => spec_take_list(old(self).remaining(), list_length as int, false)
                    matches Some(sc) && v@ == sc.0 && final(self).pos == old(self).pos + sc.1,
                Err(e) => {
                    &&& e == UnpackError::EndOfInput
                    &&& spec_take_list(old(self).remaining(), list_length as int, false) is None
                },
            },
        decreases old(self).remaining().len(), 5nat,
    {
        self.read_list(list_length, false)
    }

    /// Decodes the next encoded unit and returns it, advancing the
    /// cursor past exactly the bytes it occupies. On failure the
    /// cursor is left where it was.
    fn read_value(&mut self) -> (r: PackStreamResult<Value>)
        requires
            old(self).wf(),
        ensures
            final(self).wf(),
            final(self).stream == old(self).stream,
            final(self).buffer == old(self).buffer,
            match r {
                Ok(v) => spec_unpack_next(old(self).remaining()) matches Some(vc) && v@ == vc.0
                    && final(self).pos == old(self).pos + vc.1,
                Err(e) => {
                    &&& e == UnpackError::EndOfInput
                    &&& spec_unpack_next(old(self).remaining()) is None
                    &&& *final(self) == *old(self)
                },
            },
        decreases old(self).remaining().len(), 1nat,
    {
        let ghost s = self.remaining();
        if self.pos >= self.stream.len() {
            return Err(UnpackError::EndOfInput);
        }
        let start = self.pos;
        let header = self.stream[self.pos];
        self.pos = self.pos + 1;
        proof {
            assert(header == s[0]);
            assert(self.remaining() =~= s.subrange(1, s.len() as int));
        }
        let ghost t = s.subrange(1, s.len() as int);
        let res: PackStreamResult<Value> = if header < 0x80 {
            Ok(Value::TinyInt(header))
        } else if header < 0x90 {
            self.unpack_tiny_text(header)
        } else if header < 0xA0 {
            self.unpack_tiny_list(header)
        } else if header < 0xB0 {
            self.unpack_tiny_map(header)
        } else if header < 0xC0 {
            self.unpack_tiny_struct(header)
        } else if header == 0xC1 {
            self.unpack_float64()
        } else if header == 0xC2 {
            Ok(Value::Boolean(false))
        } else if header == 0xC3 {
            Ok(Value::Boolean(true))
        } else if header == 0xC8 {
            self.unpack_int8()
        } else if header == 0xC9 {
            self.unpack_int16()
        } else if header == 0xCA {
            self.unpack_int32()
        } else if header == 0xCB {
            self.unpack_int64()
        } else if header == 0xD0 || header == 0xD1 || header == 0xD3 {
            let width: usize = if header == 0xD0 {
                1
            } else if header == 0xD1 {
                2
            } else {
                4
            };
            match self.content_len(width) {
                Ok(len) => {
                    proof {
                        assert(self.remaining() =~= tail_from(t, width as int));
                    }
                    self.unpack_string(len)
                },
                Err(e) => Err(e),
            }
        } else if header == 0xD4 || header == 0xD5 || header == 0xD6 {
            let width: usize = if header == 0xD4 {
                1
            } else if header == 0xD5 {
                2
            } else {
                4
            };
            match self.content_len(width) {
                Ok(len) => {
                    proof {
                        assert(self.remaining() =~= tail_from(t, width as int));
                    }
                    self.unpack_list(len)
                },
                Err(e) => Err(e),
            }
        } else if header == 0xD8 || header == 0xD9 || header == 0xDA {
            let width: usize = if header == 0xD8 {
                1
            } else if header == 0xD9 {
                2
            } else {
                4
            };
            match self.content_len(width) {
                Ok(len) => {
                    proof {
                        assert(self.remaining() =~= tail_from(t, width as int));
                    }
                    self.unpack_map(len)
                },
                Err(e) => Err(e),
            }
        } else if header == 0xDC || header == 0xDD {
            let width: usize = if header == 0xDC {
                1
            } else {
                2
            };
            match self.content_len(width) {
                Ok(len) => {
                    proof {
                        assert(self.remaining() =~= tail_from(t, width as int));
                    }
                    self.unpack_struct(len)
                },
                Err(e) => Err(e),
            }
        } else {
            Ok(Value::Unreadable)
        };
        match res {
            Ok(v) => Ok(v),
            Err(e) => {
                self.pos = start;
                proof {
                    assert(*self == *old(self));
                }
                Err(e)
            },
        }
    }

    /// Decodes the next encoded unit and appends it to the output
    /// buffer; fails with `EndOfInput` when the unit is cut short,
    /// leaving the decoder untouched.
    pub fn unpack_next(&mut self) -> (r: PackStreamResult<()>)
        requires
            old(self).wf(),
        ensures
            final(self).wf(),
            final(self).stream == old(self).stream,
            match r {
                Ok(_) => spec_unpack_next(old(self).remaining()) matches Some(vc) && {
                    &&& final(self).pos == old(self).pos + vc.1
                    &&& final(self).buffer@.len() == old(self).buffer@.len() + 1
                    &&& final(self).buffer@.drop_last() == old(self).buffer@
                    &&& final(self).buffer@.last()@ == vc.0
                    &&& views(final(self).buffer@) == views(old(self).buffer@).push(vc.0)
                },
                Err(e) => {
                    &&& e == UnpackError::EndOfInput
                    &&& spec_unpack_next(old(self).remaining()) is None
                    &&& *final(self) == *old(self)
                },
            },
        decreases old(self).remaining().len(), 2nat,
    {
        match self.read_value() {
            Ok(v) => {
                proof {
                    lemma_views_push(self.buffer@, v);
                    assert(self.buffer@.push(v).drop_last() =~= self.buffer@);
                }
                self.buffer.push(v);
                Ok(())
            },
            Err(e) => Err(e),
        }
    }

    /// Decodes units until the buffer is exhausted, appending each to
    /// the output buffer in encounter order. Values decoded before a
    /// failure stay in the buffer.
    pub fn unpack_all(&mut self) -> (r: PackStreamResult<()>)
        requires
            old(self).wf(),
        ensures
            final(self).wf(),
            final(self).stream == old(self).stream,
            ({
                let run = spec_unpack_run(old(self).remaining());
                &&& views(final(self).buffer@) == views(old(self).buffer@) + run.0
                &&& final(self).buffer@.len() == old(self).buffer@.len() + run.0.len()
                &&& final(self).buffer@.subrange(0, old(self).buffer@.len() as int) == old(
                    self,
                ).buffer@
                &&& final(self).pos == old(self).pos + run.1
                &&& (r is Ok <==> run.2)
                &&& (r matches Err(e) ==> e == UnpackError::EndOfInput)
            }),
        decreases old(self).remaining().len(), 3nat,
    {
        let ghost s0 = self.remaining();
        let ghost oldbuf = self.buffer@;
        proof {
            crate::value::lemma_views_index(oldbuf);
            assert(self.buffer@.subrange(0, oldbuf.len() as int) =~= oldbuf);
        }
        while self.pos < self.stream.len()
            invariant
                self.wf(),
                self.stream == old(self).stream,
                old(self).pos <= self.pos,
                s0 == old(self).remaining(),
                oldbuf == old(self).buffer@,
                oldbuf.len() <= self.buffer@.len(),
                self.buffer@.subrange(0, oldbuf.len() as int) == oldbuf,
                ({
                    let r0 = spec_unpack_run(s0);
                    let rr = spec_unpack_run(self.remaining());
                    &&& views(self.buffer@) + rr.0 == views(oldbuf) + r0.0
                    &&& (self.pos - old(self).pos) + rr.1 == r0.1
                    &&& rr.2 == r0.2
                }),
            decreases self.stream@.len() - self.pos,
        {
            let ghost s_here = self.remaining();
            let ghost buf_here = self.buffer@;
            match self.unpack_next() {
                Ok(_) => {
                    proof {
                        lemma_next_bounds(s_here);
                        let c = spec_unpack_next(s_here)->Some_0.1;
                        assert(self.remaining() =~= tail_from(s_here, c));
                        let v = spec_unpack_next(s_here)->Some_0.0;
                        let rr2 = spec_unpack_run(self.remaining());
                        assert(views(buf_here).push(v) + rr2.0 =~= views(buf_here) + (seq![v]
                            + rr2.0));
                        assert(self.buffer@.subrange(0, oldbuf.len() as int) =~= buf_here.subrange(
                            0,
                            oldbuf.len() as int,
                        ));
                    }
                },
                Err(e) => {
                    proof {
                        let rr = spec_unpack_run(s_here);
                        assert(rr.0 =~= Seq::<SpecValue>::empty());
                        assert(views(self.buffer@) + rr.0 =~= views(self.buffer@));
                        crate::value::lemma_views_index(self.buffer@);
                        crate::value::lemma_views_index(oldbuf);
                    }
                    return Err(e);
                },
            }
        }
        proof {
            let rr = spec_unpack_run(self.remaining());
            assert(self.remaining() =~= Seq::<u8>::empty());
            assert(rr.0 =~= Seq::<SpecValue>::empty());
            assert(views(self.buffer@) + rr.0 =~= views(self.buffer@));
            crate::value::lemma_views_index(self.buffer@);
            crate::value::lemma_views_index(oldbuf);
        }
        Ok(())
    }

    /// Reads a sized text value's payload, after its length prefix.
    fn unpack_string(&mut self, list_length: usize) -> (r: PackStreamResult<Value>)
        requires
            old(self).wf(),
        ensures
            final(self).wf(),
            final(self).stream == old(self).stream,
            final(self).buffer == old(self).buffer,
            match r {
                Ok(v) => spec_take_text(old(self).remaining(), list_length as int, false)
                    matches Some(sc) && v@ == sc.0 && final(self).pos == old(self).pos + sc.1,
                Err(e) => {
                    &&& e == UnpackError::EndOfInput
                    &&& spec_take_text(old(self).remaining(), list_length as int, false) is None
                    &&& *final(self) == *old(self)
                },
            },
    {
        self.read_text(list_length, false)
    }
}

} // verus!
