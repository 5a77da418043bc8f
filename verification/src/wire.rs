use vstd::prelude::*;

use crate::value::SpecValue;

verus! {

// The wire format, written down as mathematics.
//
// Every encoded unit starts with one marker byte. Markers below 0xC0
// are "tiny" forms whose low nibble is the payload length or element
// count; the remaining markers either are complete in themselves
// (booleans), carry a fixed-width big-endian payload (numbers), or
// carry an explicit big-endian length prefix of 1, 2 or 4 bytes
// followed by the payload (sized text, lists, maps and structs).
//
// `spec_unpack_next` decodes the first unit of a byte sequence and
// says how many bytes it occupies; `None` means the bytes end before
// the unit does. A marker outside the table, or text that is not
// valid UTF-8, decodes to `Unreadable` and decoding goes on behind it;
// running out of bytes is the one fatal condition.

/// The suffix of `s` starting at position `n`; empty when `n` lies
/// outside `s`, so that the function is total.
pub open spec fn tail_from(s: Seq<u8>, n: int) -> Seq<u8> {
    if 0 <= n <= s.len() {
        s.subrange(n, s.len() as int)
    } else {
        Seq::empty()
    }
}

/// The unsigned big-endian integer held in `bytes`.
pub open spec fn be_val(bytes: Seq<u8>) -> int
    decreases bytes.len(),
{
    if bytes.len() == 0 {
        0
    } else {
        256 * be_val(bytes.drop_last()) + bytes.last()
    }
}

/// The number of distinct values that `n` bytes can hold.
pub open spec fn pow256(n: nat) -> int
    decreases n,
{
    if n == 0 {
        1
    } else {
        256 * pow256((n - 1) as nat)
    }
}

/// The signed reading of an unsigned 8-bit value.
pub open spec fn signed8(v: int) -> int {
    if v < 0x80 {
        v
    } else {
        v - 0x100
    }
}

/// The signed reading of an unsigned 16-bit value.
pub open spec fn signed16(v: int) -> int {
    if v < 0x8000 {
        v
    } else {
        v - 0x1_0000
    }
}

/// The signed reading of an unsigned 32-bit value.
pub open spec fn signed32(v: int) -> int {
    if v < 0x8000_0000 {
        v
    } else {
        v - 0x1_0000_0000
    }
}

/// The signed reading of an unsigned 64-bit value.
pub open spec fn signed64(v: int) -> int {
    if v < 0x8000_0000_0000_0000 {
        v
    } else {
        v - 0x1_0000_0000_0000_0000
    }
}

/// One text value: `n` payload bytes taken from the front of `t`.
/// Bytes that are not valid UTF-8 give `Unreadable` in that slot,
/// still consuming the declared `n` bytes.
pub open spec fn spec_take_text(t: Seq<u8>, n: int, tiny: bool) -> Option<(SpecValue, int)> {
    if 0 <= n <= t.len() {
        let bytes = t.subrange(0, n);
        if vstd::utf8::valid_utf8(bytes) {
            let chars = vstd::utf8::decode_utf8(bytes);
            if tiny {
                Some((SpecValue::TinyText(chars), n))
            } else {
                Some((SpecValue::String(chars), n))
            }
        } else {
            Some((SpecValue::Unreadable, n))
        }
    } else {
        None
    }
}

/// One list value: the next `n` bytes of `t` form a bounded sub-stream
/// that must decode cleanly to the list's elements, consuming exactly
/// those `n` bytes.
pub open spec fn spec_take_list(t: Seq<u8>, n: int, tiny: bool) -> Option<(SpecValue, int)>
    decreases t.len(), 2nat, 0nat,
{
    if 0 <= n <= t.len() {
        let r = spec_unpack_run(t.subrange(0, n));
        if r.2 {
            if tiny {
                Some((SpecValue::TinyList(r.0), n))
            } else {
                Some((SpecValue::List(r.0), n))
            }
        } else {
            None
        }
    } else {
        None
    }
}

/// One map value: `n` key/value pairs decoded from the front of `t`.
pub open spec fn spec_take_map(t: Seq<u8>, n: int, tiny: bool) -> Option<(SpecValue, int)>
    decreases t.len(), 2nat, 0nat,
{
    match spec_unpack_pairs(t, n) {
        Some((pairs, c)) => {
            if tiny {
                Some((SpecValue::TinyMap(pairs), c))
            } else {
                Some((SpecValue::SizedMap(pairs), c))
            }
        },
        None => None,
    }
}

/// One struct value: a tag byte, then `n` field values decoded from
/// the front of `t`.
pub open spec fn spec_take_struct(t: Seq<u8>, n: int) -> Option<(SpecValue, int)>
    decreases t.len(), 2nat, 0nat,
{
    if t.len() >= 1 {
        let tag = t[0];
        match spec_unpack_items(t.subrange(1, t.len() as int), n) {
            Some((fields, c)) => Some((SpecValue::Struct { tag: tag as int, fields }, 1 + c)),
            None => None,
        }
    } else {
        None
    }
}

/// A sized text form: a `width`-byte big-endian length prefix, then
/// that many payload bytes.
pub open spec fn spec_take_sized_text(t: Seq<u8>, width: int) -> Option<(SpecValue, int)>
    decreases t.len(), 3nat, 0nat,
{
    if 0 <= width <= t.len() {
        let n = be_val(t.subrange(0, width));
        match spec_take_text(tail_from(t, width), n, false) {
            Some((v, c)) => Some((v, width + c)),
            None => None,
        }
    } else {
        None
    }
}

/// A sized list form: a `width`-byte big-endian length prefix, then
/// that many encoded bytes decoded as a bounded sub-stream.
pub open spec fn spec_take_sized_list(t: Seq<u8>, width: int) -> Option<(SpecValue, int)>
    decreases t.len(), 3nat, 0nat,
{
    if 0 <= width <= t.len() {
        let n = be_val(t.subrange(0, width));
        match spec_take_list(tail_from(t, width), n, false) {
            Some((v, c)) => Some((v, width + c)),
            None => None,
        }
    } else {
        None
    }
}

/// A sized map form: a `width`-byte big-endian pair-count prefix, then
/// that many key/value pairs.
pub open spec fn spec_take_sized_map(t: Seq<u8>, width: int) -> Option<(SpecValue, int)>
    decreases t.len(), 3nat, 0nat,
{
    if 0 <= width <= t.len() {
        let n = be_val(t.subrange(0, width));
        match spec_take_map(tail_from(t, width), n, false) {
            Some((v, c)) => Some((v, width + c)),
            None => None,
        }
    } else {
        None
    }
}

/// A sized struct form: a `width`-byte big-endian field-count prefix,
/// then a tag byte, then that many field values.
pub open spec fn spec_take_sized_struct(t: Seq<u8>, width: int) -> Option<(SpecValue, int)>
    decreases t.len(), 3nat, 0nat,
{
    if 0 <= width <= t.len() {
        let n = be_val(t.subrange(0, width));
        match spec_take_struct(tail_from(t, width), n) {
            Some((v, c)) => Some((v, width + c)),
            None => None,
        }
    } else {
        None
    }
}

/// Decodes the first encoded unit of `s`: the unit's value and the
/// number of bytes it occupies, marker included. `None` means `s`
/// ends before the unit does.
pub open spec fn spec_unpack_next(s: Seq<u8>) -> Option<(SpecValue, int)>
    decreases s.len(), 0nat, 0nat,
{
    if s.len() == 0 {
        None
    } else {
        let m = s[0];
        let t = s.subrange(1, s.len() as int);
        let step = if m < 0x80 {
            Some((SpecValue::TinyInt(m as int), 0))
        } else if m < 0x90 {
            spec_take_text(t, m - 0x80, true)
        } else if m < 0xA0 {
            spec_take_list(t, m - 0x90, true)
        } else if m < 0xB0 {
            spec_take_map(t, m - 0xA0, true)
        } else if m < 0xC0 {
            spec_take_struct(t, m - 0xB0)
        } else if m == 0xC1 {
            if t.len() >= 8 {
                Some((SpecValue::Float64(be_val(t.subrange(0, 8))), 8))
            } else {
                None
            }
        } else if m == 0xC2 {
            Some((SpecValue::Boolean(false), 0))
        } else if m == 0xC3 {
            Some((SpecValue::Boolean(true), 0))
        } else if m == 0xC8 {
            if t.len() >= 1 {
                Some((SpecValue::Int8(signed8(be_val(t.subrange(0, 1)))), 1))
            } else {
                None
            }
        } else if m == 0xC9 {
            if t.len() >= 2 {
                Some((SpecValue::Int16(signed16(be_val(t.subrange(0, 2)))), 2))
            } else {
                None
            }
        } else if m == 0xCA {
            if t.len() >= 4 {
                Some((SpecValue::Int32(signed32(be_val(t.subrange(0, 4)))), 4))
            } else {
                None
            }
        } else if m == 0xCB {
            if t.len() >= 8 {
                Some((SpecValue::Int64(signed64(be_val(t.subrange(0, 8)))), 8))
            } else {
                None
            }
        } else if m == 0xD0 {
            spec_take_sized_text(t, 1)
        } else if m == 0xD1 {
            spec_take_sized_text(t, 2)
        } else if m == 0xD3 {
            spec_take_sized_text(t, 4)
        } else if m == 0xD4 {
            spec_take_sized_list(t, 1)
        } else if m == 0xD5 {
            spec_take_sized_list(t, 2)
        } else if m == 0xD6 {
            spec_take_sized_list(t, 4)
        } else if m == 0xD8 {
            spec_take_sized_map(t, 1)
        } else if m == 0xD9 {
            spec_take_sized_map(t, 2)
        } else if m == 0xDA {
            spec_take_sized_map(t, 4)
        } else if m == 0xDC {
            spec_take_sized_struct(t, 1)
        } else if m == 0xDD {
            spec_take_sized_struct(t, 2)
        } else {
            Some((SpecValue::Unreadable, 0))
        };
        match step {
            Some((v, c)) => Some((v, 1 + c)),
            None => None,
        }
    }
}

/// Decodes `n` consecutive units from the front of `s`: the values in
/// encounter order and the bytes they occupy together.
pub open spec fn spec_unpack_items(s: Seq<u8>, n: int) -> Option<(Seq<SpecValue>, int)>
    decreases s.len(), 1nat, (if n >= 0 { n } else { 0 }),
{
    if n <= 0 {
        Some((Seq::empty(), 0))
    } else {
        match spec_unpack_next(s) {
            None => None,
            Some((v, c)) => {
                match spec_unpack_items(tail_from(s, c), n - 1) {
                    None => None,
                    Some((vs, c2)) => Some((seq![v] + vs, c + c2)),
                }
            },
        }
    }
}

/// Decodes `n` consecutive key/value pairs from the front of `s`.
pub open spec fn spec_unpack_pairs(s: Seq<u8>, n: int) -> Option<(Seq<(SpecValue, SpecValue)>, int)>
    decreases s.len(), 1nat, (if n >= 0 { n } else { 0 }),
{
    if n <= 0 {
        Some((Seq::empty(), 0))
    } else {
        match spec_unpack_next(s) {
            None => None,
            Some((k, ck)) => {
                let s1 = tail_from(s, ck);
                match spec_unpack_next(s1) {
                    None => None,
                    Some((v, cv)) => {
                        match spec_unpack_pairs(tail_from(s1, cv), n - 1) {
                            None => None,
                            Some((ps, c2)) => Some((seq![(k, v)] + ps, ck + cv + c2)),
                        }
                    },
                }
            },
        }
    }
}

/// Decodes units from the front of `s` until the bytes run out or a
/// unit is cut short: the values decoded in order, the bytes they
/// occupy, and whether all of `s` was consumed cleanly.
pub open spec fn spec_unpack_run(s: Seq<u8>) -> (Seq<SpecValue>, int, bool)
    decreases s.len(), 1nat, 0nat,
{
    if s.len() == 0 {
        (Seq::empty(), 0, true)
    } else {
        match spec_unpack_next(s) {
            None => (Seq::empty(), 0, false),
            Some((v, c)) => {
                // One unit always occupies at least its marker byte, so
                // the clamp below never binds; it only makes the shrink
                // of `s` self-evident.
                let c1 = if c < 1 {
                    1
                } else {
                    c
                };
                let r = spec_unpack_run(tail_from(s, c1));
                (seq![v] + r.0, c1 + r.1, r.2)
            },
        }
    }
}

/// The whole-buffer decode: the value sequence when every unit decodes
/// and the buffer is consumed exactly, and nothing otherwise.
pub open spec fn spec_unpack_all(s: Seq<u8>) -> Option<Seq<SpecValue>> {
    let r = spec_unpack_run(s);
    if r.2 {
        Some(r.0)
    } else {
        None
    }
}

/// More bytes can hold more values.
pub proof fn lemma_pow256_le(a: nat, b: nat)
    requires
        a <= b,
    ensures
        pow256(a) <= pow256(b),
    decreases b,
{
    if a < b && b > 0 {
        lemma_pow256_le(a, (b - 1) as nat);
        lemma_be_val_bounds(Seq::empty());
        assert(pow256(b) == 256 * pow256((b - 1) as nat));
        assert(pow256((b - 1) as nat) >= 1) by {
            lemma_pow256_pos((b - 1) as nat);
        }
    }
}

/// Any number of bytes holds at least one value.
pub proof fn lemma_pow256_pos(n: nat)
    ensures
        pow256(n) >= 1,
    decreases n,
{
    if n > 0 {
        lemma_pow256_pos((n - 1) as nat);
    }
}

/// A big-endian integer is non-negative and fits its width.
pub proof fn lemma_be_val_bounds(bytes: Seq<u8>)
    ensures
        0 <= be_val(bytes) < pow256(bytes.len()),
    decreases bytes.len(),
{
    if bytes.len() > 0 {
        lemma_be_val_bounds(bytes.drop_last());
    }
}

/// One decoded unit occupies at least its marker byte and never more
/// bytes than the stream holds.
pub proof fn lemma_next_bounds(s: Seq<u8>)
    ensures
        spec_unpack_next(s) matches Some((v, c)) ==> 1 <= c <= s.len(),
    decreases s.len(), 0nat, 0nat,
{
    if s.len() > 0 {
        let m = s[0];
        let t = s.subrange(1, s.len() as int);
        if 0xA0 <= m < 0xB0 {
            lemma_pairs_bounds(t, m - 0xA0);
        } else if 0xB0 <= m < 0xC0 {
            if t.len() >= 1 {
                lemma_items_bounds(t.subrange(1, t.len() as int), m - 0xB0);
            }
        } else if m == 0xD8 || m == 0xD9 || m == 0xDA {
            let w: int = if m == 0xD8 {
                1
            } else if m == 0xD9 {
                2
            } else {
                4
            };
            if w <= t.len() {
                lemma_pairs_bounds(tail_from(t, w), be_val(t.subrange(0, w)));
            }
        } else if m == 0xDC || m == 0xDD {
            let w: int = if m == 0xDC {
                1
            } else {
                2
            };
            if w <= t.len() {
                let t2 = tail_from(t, w);
                if t2.len() >= 1 {
                    lemma_items_bounds(t2.subrange(1, t2.len() as int), be_val(t.subrange(0, w)));
                }
            }
        }
    }
}

/// A decoded item sequence holds exactly the asked-for number of
/// values and occupies at most the whole stream.
pub proof fn lemma_items_bounds(s: Seq<u8>, n: int)
    ensures
        spec_unpack_items(s, n) matches Some((vs, c)) ==> {
            &&& 0 <= c <= s.len()
            &&& vs.len() == (if n >= 0 { n } else { 0 })
        },
    decreases s.len(), 1nat, (if n >= 0 { n } else { 0 }),
{
    if n > 0 {
        match spec_unpack_next(s) {
            None => {},
            Some((v, c)) => {
                lemma_next_bounds(s);
                lemma_items_bounds(tail_from(s, c), n - 1);
            },
        }
    }
}

/// A decoded pair sequence holds exactly the asked-for number of
/// pairs and occupies at most the whole stream.
pub proof fn lemma_pairs_bounds(s: Seq<u8>, n: int)
    ensures
        spec_unpack_pairs(s, n) matches Some((ps, c)) ==> {
            &&& 0 <= c <= s.len()
            &&& ps.len() == (if n >= 0 { n } else { 0 })
        },
    decreases s.len(), 1nat, (if n >= 0 { n } else { 0 }),
{
    if n > 0 {
        match spec_unpack_next(s) {
            None => {},
            Some((k, ck)) => {
                lemma_next_bounds(s);
                let s1 = tail_from(s, ck);
                match spec_unpack_next(s1) {
                    None => {},
                    Some((v, cv)) => {
                        lemma_next_bounds(s1);
                        lemma_pairs_bounds(tail_from(s1, cv), n - 1);
                    },
                }
            },
        }
    }
}

/// A run consumes a prefix of the stream, and consumes it whole
/// exactly when it reports a clean finish.
pub proof fn lemma_run_bounds(s: Seq<u8>)
    ensures
        ({
            let r = spec_unpack_run(s);
            &&& 0 <= r.1 <= s.len()
            &&& (r.2 <==> r.1 == s.len())
        }),
    decreases s.len(),
{
    if s.len() > 0 {
        match spec_unpack_next(s) {
            None => {},
            Some((v, c)) => {
                lemma_next_bounds(s);
                let c1: int = if c < 1 {
                    1
                } else {
                    c
                };
                lemma_run_bounds(tail_from(s, c1));
            },
        }
    }
}

} // verus!
