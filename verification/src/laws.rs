use vstd::prelude::*;

use crate::value::SpecValue;
use crate::wire::{
    lemma_next_bounds, lemma_pairs_bounds, lemma_run_bounds, spec_unpack_all, spec_unpack_items,
    spec_unpack_next, spec_unpack_pairs, spec_unpack_run, tail_from,
};

verus! {

// Laws of the wire format: decoding one unit reads only the bytes it
// consumes, so independently valid encodings can be decoded side by
// side, and cutting a unit short can only fail, never mis-decode.

/// Bytes appended behind one encoded unit do not change how the unit
/// decodes.
pub proof fn lemma_next_prefix(s: Seq<u8>, ext: Seq<u8>)
    ensures
        spec_unpack_next(s) matches Some(vc) ==> spec_unpack_next(s + ext) == Some(vc),
    decreases s.len(), 0nat, 0nat,
{
    if s.len() > 0 && spec_unpack_next(s) is Some {
        let m = s[0];
        let t = s.subrange(1, s.len() as int);
        let w = s + ext;
        let tw = w.subrange(1, w.len() as int);
        assert(w[0] == m);
        assert(tw =~= t + ext);
        if m < 0x80 {
        } else if m < 0x90 {
            let n = m - 0x80;
            assert(tw.subrange(0, n) =~= t.subrange(0, n));
        } else if m < 0xA0 {
            let n = m - 0x90;
            assert(tw.subrange(0, n) =~= t.subrange(0, n));
        } else if m < 0xB0 {
            lemma_pairs_prefix(t, ext, m - 0xA0);
        } else if m < 0xC0 {
            assert(tw[0] == t[0]);
            assert(tw.subrange(1, tw.len() as int) =~= t.subrange(1, t.len() as int) + ext);
            lemma_items_prefix(t.subrange(1, t.len() as int), ext, m - 0xB0);
        } else if m == 0xC1 {
            assert(tw.subrange(0, 8) =~= t.subrange(0, 8));
        } else if m == 0xC2 || m == 0xC3 {
        } else if m == 0xC8 {
            assert(tw.subrange(0, 1) =~= t.subrange(0, 1));
        } else if m == 0xC9 {
            assert(tw.subrange(0, 2) =~= t.subrange(0, 2));
        } else if m == 0xCA {
            assert(tw.subrange(0, 4) =~= t.subrange(0, 4));
        } else if m == 0xCB {
            assert(tw.subrange(0, 8) =~= t.subrange(0, 8));
        } else if m == 0xD0 || m == 0xD1 || m == 0xD3 || m == 0xD4 || m == 0xD5 || m == 0xD6 || m
            == 0xD8 || m == 0xD9 || m == 0xDA || m == 0xDC || m == 0xDD {
            let width: int = if m == 0xD0 || m == 0xD4 || m == 0xD8 || m == 0xDC {
                1
            } else if m == 0xD1 || m == 0xD5 || m == 0xD9 || m == 0xDD {
                2
            } else {
                4
            };
            assert(width <= t.len());
            assert(tw.subrange(0, width) =~= t.subrange(0, width));
            let u = tail_from(t, width);
            let uw = tail_from(tw, width);
            assert(uw =~= u + ext);
            if m == 0xD0 || m == 0xD1 || m == 0xD3 {
                let n = crate::wire::be_val(t.subrange(0, width));
                if 0 <= n <= u.len() {
                    assert(uw.subrange(0, n) =~= u.subrange(0, n));
                }
            } else if m == 0xD4 || m == 0xD5 || m == 0xD6 {
                let n = crate::wire::be_val(t.subrange(0, width));
                if 0 <= n <= u.len() {
                    assert(uw.subrange(0, n) =~= u.subrange(0, n));
                }
            } else if m == 0xD8 || m == 0xD9 || m == 0xDA {
                lemma_pairs_prefix(u, ext, crate::wire::be_val(t.subrange(0, width)));
            } else {
                assert(uw[0] == u[0]);
                assert(uw.subrange(1, uw.len() as int) =~= u.subrange(1, u.len() as int) + ext);
                lemma_items_prefix(
                    u.subrange(1, u.len() as int),
                    ext,
                    crate::wire::be_val(t.subrange(0, width)),
                );
            }
        } else {
        }
    }
}

/// Bytes appended behind a run of consecutive units do not change how
/// the units decode.
pub proof fn lemma_items_prefix(s: Seq<u8>, ext: Seq<u8>, n: int)
    ensures
        spec_unpack_items(s, n) matches Some(vc) ==> spec_unpack_items(s + ext, n) == Some(vc),
    decreases s.len(), 1nat, (if n >= 0 { n } else { 0 }),
{
    if n > 0 && spec_unpack_items(s, n) is Some {
        match spec_unpack_next(s) {
            None => {},
            Some((v, c)) => {
                lemma_next_bounds(s);
                lemma_next_prefix(s, ext);
                assert(tail_from(s + ext, c) =~= tail_from(s, c) + ext);
                lemma_items_prefix(tail_from(s, c), ext, n - 1);
            },
        }
    }
}

/// Bytes appended behind a run of consecutive pairs do not change how
/// the pairs decode.
pub proof fn lemma_pairs_prefix(s: Seq<u8>, ext: Seq<u8>, n: int)
    ensures
        spec_unpack_pairs(s, n) matches Some(vc) ==> spec_unpack_pairs(s + ext, n) == Some(vc),
    decreases s.len(), 1nat, (if n >= 0 { n } else { 0 }),
{
    if n > 0 && spec_unpack_pairs(s, n) is Some {
        match spec_unpack_next(s) {
            None => {},
            Some((k, ck)) => {
                lemma_next_bounds(s);
                lemma_next_prefix(s, ext);
                let s1 = tail_from(s, ck);
                assert(tail_from(s + ext, ck) =~= s1 + ext);
                match spec_unpack_next(s1) {
                    None => {},
                    Some((v, cv)) => {
                        lemma_next_bounds(s1);
                        lemma_next_prefix(s1, ext);
                        assert(tail_from(s1 + ext, cv) =~= tail_from(s1, cv) + ext);
                        lemma_pairs_prefix(tail_from(s1, cv), ext, n - 1);
                    },
                }
            },
        }
    }
}

/// A clean run followed by more bytes decodes to the run's values and
/// then whatever the rest decodes to.
pub proof fn lemma_run_concat(a: Seq<u8>, b: Seq<u8>)
    requires
        spec_unpack_run(a).2,
    ensures
        spec_unpack_run(a + b).0 == spec_unpack_run(a).0 + spec_unpack_run(b).0,
        spec_unpack_run(a + b).1 == a.len() + spec_unpack_run(b).1,
        spec_unpack_run(a + b).2 == spec_unpack_run(b).2,
    decreases a.len(),
{
    lemma_run_bounds(a);
    if a.len() == 0 {
        assert(a + b =~= b);
        assert(Seq::<SpecValue>::empty() + spec_unpack_run(b).0 =~= spec_unpack_run(b).0);
    } else {
        match spec_unpack_next(a) {
            None => {},
            Some((v, c)) => {
                lemma_next_bounds(a);
                lemma_next_prefix(a, b);
                let tail = tail_from(a, c);
                assert(tail_from(a + b, c) =~= tail + b);
                lemma_run_concat(tail, b);
                assert(seq![v] + (spec_unpack_run(tail).0 + spec_unpack_run(b).0) =~= (seq![v]
                    + spec_unpack_run(tail).0) + spec_unpack_run(b).0);
            },
        }
    }
}

/// One encoded unit decodes the same from exactly the bytes it
/// consumes.
pub proof fn lemma_next_exact(s: Seq<u8>)
    ensures
        spec_unpack_next(s) matches Some(vc) ==> spec_unpack_next(s.subrange(0, vc.1)) == Some(vc),
    decreases s.len(), 0nat, 0nat,
{
    if s.len() > 0 && spec_unpack_next(s) is Some {
        lemma_next_bounds(s);
        let c = spec_unpack_next(s)->Some_0.1;
        let m = s[0];
        let t = s.subrange(1, s.len() as int);
        let s1 = s.subrange(0, c);
        let t1 = s1.subrange(1, s1.len() as int);
        assert(s1[0] == m);
        assert(t1 =~= t.subrange(0, c - 1));
        if m < 0x80 {
        } else if m < 0x90 {
            let n = m - 0x80;
            assert(t1.subrange(0, n) =~= t.subrange(0, n));
        } else if m < 0xA0 {
            let n = m - 0x90;
            assert(t1.subrange(0, n) =~= t.subrange(0, n));
        } else if m < 0xB0 {
            let n = m - 0xA0;
            lemma_pairs_bounds(t, n);
            lemma_pairs_exact(t, n);
        } else if m < 0xC0 {
            let n = m - 0xB0;
            let u = t.subrange(1, t.len() as int);
            crate::wire::lemma_items_bounds(u, n);
            lemma_items_exact(u, n);
            assert(t1[0] == t[0]);
            let ci = spec_unpack_items(u, n as int)->Some_0.1;
            assert(t1.subrange(1, t1.len() as int) =~= u.subrange(0, ci));
        } else if m == 0xC1 {
            assert(t1.subrange(0, 8) =~= t.subrange(0, 8));
        } else if m == 0xC2 || m == 0xC3 {
        } else if m == 0xC8 {
            assert(t1.subrange(0, 1) =~= t.subrange(0, 1));
        } else if m == 0xC9 {
            assert(t1.subrange(0, 2) =~= t.subrange(0, 2));
        } else if m == 0xCA {
            assert(t1.subrange(0, 4) =~= t.subrange(0, 4));
        } else if m == 0xCB {
            assert(t1.subrange(0, 8) =~= t.subrange(0, 8));
        } else if m == 0xD0 || m == 0xD1 || m == 0xD3 || m == 0xD4 || m == 0xD5 || m == 0xD6 || m
            == 0xD8 || m == 0xD9 || m == 0xDA || m == 0xDC || m == 0xDD {
            let width: int = if m == 0xD0 || m == 0xD4 || m == 0xD8 || m == 0xDC {
                1
            } else if m == 0xD1 || m == 0xD5 || m == 0xD9 || m == 0xDD {
                2
            } else {
                4
            };
            if m == 0xD0 || m == 0xD1 || m == 0xD3 {
                lemma_sized_text_exact(t, width);
            } else if m == 0xD4 || m == 0xD5 || m == 0xD6 {
                lemma_sized_list_exact(t, width);
            } else if m == 0xD8 || m == 0xD9 || m == 0xDA {
                lemma_sized_map_exact(t, width);
            } else {
                lemma_sized_struct_exact(t, width);
            }
        } else {
        }
    }
}

/// A sized text form decodes the same from exactly the bytes it
/// consumes.
proof fn lemma_sized_text_exact(t: Seq<u8>, width: int)
    ensures
        crate::wire::spec_take_sized_text(t, width) matches Some(vc)
            ==> crate::wire::spec_take_sized_text(t.subrange(0, vc.1), width) == Some(vc),
    decreases t.len(), 2nat, 0nat,
{
    if crate::wire::spec_take_sized_text(t, width) is Some {
        let vc = crate::wire::spec_take_sized_text(t, width)->Some_0;
        let n = crate::wire::be_val(t.subrange(0, width));
        let u = tail_from(t, width);
        assert(crate::wire::spec_take_text(u, n, false) is Some);
        assert(0 <= n <= u.len());
        assert(vc.1 == width + n);
        let t1 = t.subrange(0, vc.1);
        assert(t1.subrange(0, width) =~= t.subrange(0, width));
        let u1 = tail_from(t1, width);
        assert(u1 =~= u.subrange(0, n));
        assert(u1.subrange(0, n) =~= u.subrange(0, n));
    }
}

/// A sized list form decodes the same from exactly the bytes it
/// consumes.
proof fn lemma_sized_list_exact(t: Seq<u8>, width: int)
    ensures
        crate::wire::spec_take_sized_list(t, width) matches Some(vc)
            ==> crate::wire::spec_take_sized_list(t.subrange(0, vc.1), width) == Some(vc),
    decreases t.len(), 2nat, 0nat,
{
    if crate::wire::spec_take_sized_list(t, width) is Some {
        let vc = crate::wire::spec_take_sized_list(t, width)->Some_0;
        let n = crate::wire::be_val(t.subrange(0, width));
        let u = tail_from(t, width);
        assert(crate::wire::spec_take_list(u, n, false) is Some);
        assert(0 <= n <= u.len());
        assert(vc.1 == width + n);
        let t1 = t.subrange(0, vc.1);
        assert(t1.subrange(0, width) =~= t.subrange(0, width));
        let u1 = tail_from(t1, width);
        assert(u1 =~= u.subrange(0, n));
        assert(u1.subrange(0, n) =~= u.subrange(0, n));
    }
}

/// A sized map form decodes the same from exactly the bytes it
/// consumes.
proof fn lemma_sized_map_exact(t: Seq<u8>, width: int)
    ensures
        crate::wire::spec_take_sized_map(t, width) matches Some(vc)
            ==> crate::wire::spec_take_sized_map(t.subrange(0, vc.1), width) == Some(vc),
    decreases t.len(), 2nat, 0nat,
{
    if crate::wire::spec_take_sized_map(t, width) is Some {
        let vc = crate::wire::spec_take_sized_map(t, width)->Some_0;
        let n = crate::wire::be_val(t.subrange(0, width));
        let u = tail_from(t, width);
        assert(spec_unpack_pairs(u, n) is Some);
        lemma_pairs_bounds(u, n);
        let cp = spec_unpack_pairs(u, n)->Some_0.1;
        assert(vc.1 == width + cp);
        let t1 = t.subrange(0, vc.1);
        assert(t1.subrange(0, width) =~= t.subrange(0, width));
        let u1 = tail_from(t1, width);
        assert(u1 =~= u.subrange(0, cp));
        lemma_pairs_exact(u, n);
    }
}

/// A sized struct form decodes the same from exactly the bytes it
/// consumes.
proof fn lemma_sized_struct_exact(t: Seq<u8>, width: int)
    ensures
        crate::wire::spec_take_sized_struct(t, width) matches Some(vc)
            ==> crate::wire::spec_take_sized_struct(t.subrange(0, vc.1), width) == Some(vc),
    decreases t.len(), 2nat, 0nat,
{
    if crate::wire::spec_take_sized_struct(t, width) is Some {
        let vc = crate::wire::spec_take_sized_struct(t, width)->Some_0;
        let n = crate::wire::be_val(t.subrange(0, width));
        let u = tail_from(t, width);
        assert(crate::wire::spec_take_struct(u, n) is Some);
        let z = u.subrange(1, u.len() as int);
        assert(spec_unpack_items(z, n) is Some);
        crate::wire::lemma_items_bounds(z, n);
        let ci = spec_unpack_items(z, n)->Some_0.1;
        assert(vc.1 == width + 1 + ci);
        let t1 = t.subrange(0, vc.1);
        assert(t1.subrange(0, width) =~= t.subrange(0, width));
        let u1 = tail_from(t1, width);
        assert(u1 =~= u.subrange(0, 1 + ci));
        assert(u1[0] == u[0]);
        assert(u1.subrange(1, u1.len() as int) =~= z.subrange(0, ci));
        lemma_items_exact(z, n);
    }
}

/// Restricting the stream behind one encoded unit neither changes how
/// the unit decodes nor what follows it, as long as the unit itself is
/// kept whole.
pub proof fn lemma_next_restrict(s: Seq<u8>, k: int)
    requires
        spec_unpack_next(s) is Some,
        spec_unpack_next(s)->Some_0.1 <= k <= s.len(),
    ensures
        spec_unpack_next(s.subrange(0, k)) == spec_unpack_next(s),
        tail_from(s.subrange(0, k), spec_unpack_next(s)->Some_0.1) == tail_from(
            s,
            spec_unpack_next(s)->Some_0.1,
        ).subrange(0, k - spec_unpack_next(s)->Some_0.1),
    decreases s.len(), 1nat, 0nat,
{
    lemma_next_bounds(s);
    let c = spec_unpack_next(s)->Some_0.1;
    lemma_next_exact(s);
    assert(s.subrange(0, k) =~= s.subrange(0, c) + s.subrange(c, k));
    lemma_next_prefix(s.subrange(0, c), s.subrange(c, k));
    assert(tail_from(s.subrange(0, k), c) =~= tail_from(s, c).subrange(0, k - c));
}

/// A run of consecutive units decodes the same from exactly the bytes
/// it consumes.
pub proof fn lemma_items_exact(s: Seq<u8>, n: int)
    ensures
        spec_unpack_items(s, n) matches Some(vc) ==> spec_unpack_items(s.subrange(0, vc.1), n)
            == Some(vc),
    decreases s.len(), 1nat, (if n >= 0 { n } else { 0 }),
{
    if n > 0 && spec_unpack_items(s, n) is Some {
        match spec_unpack_next(s) {
            None => {},
            Some((v, c1)) => {
                lemma_next_bounds(s);
                let tail = tail_from(s, c1);
                crate::wire::lemma_items_bounds(tail, n - 1);
                let c2 = spec_unpack_items(tail, n - 1)->Some_0.1;
                lemma_next_restrict(s, c1 + c2);
                lemma_items_exact(tail, n - 1);
            },
        }
    }
}

/// A run of consecutive pairs decodes the same from exactly the bytes
/// it consumes.
pub proof fn lemma_pairs_exact(s: Seq<u8>, n: int)
    ensures
        spec_unpack_pairs(s, n) matches Some(vc) ==> spec_unpack_pairs(s.subrange(0, vc.1), n)
            == Some(vc),
    decreases s.len(), 1nat, (if n >= 0 { n } else { 0 }),
{
    if n > 0 && spec_unpack_pairs(s, n) is Some {
        match spec_unpack_next(s) {
            None => {},
            Some((k, ck)) => {
                lemma_next_bounds(s);
                let s1 = tail_from(s, ck);
                match spec_unpack_next(s1) {
                    None => {},
                    Some((v, cv)) => {
                        lemma_next_bounds(s1);
                        let s2 = tail_from(s1, cv);
                        lemma_pairs_bounds(s2, n - 1);
                        let c2 = spec_unpack_pairs(s2, n - 1)->Some_0.1;
                        lemma_next_restrict(s, ck + cv + c2);
                        lemma_next_restrict(s1, cv + c2);
                        lemma_pairs_exact(s2, n - 1);
                    },
                }
            },
        }
    }
}

/// Cutting one encoded unit short, anywhere before its end, makes its
/// decoding fail: a truncated unit is never mis-read as a value.
pub proof fn lemma_next_truncated(s: Seq<u8>, k: int)
    requires
        spec_unpack_next(s) is Some,
        0 <= k < spec_unpack_next(s)->Some_0.1,
    ensures
        spec_unpack_next(s.subrange(0, k)) is None,
    decreases s.len(), 0nat, 0nat,
{
    lemma_next_bounds(s);
    let c = spec_unpack_next(s)->Some_0.1;
    if k == 0 {
        assert(s.subrange(0, 0) =~= Seq::<u8>::empty());
    } else {
        let m = s[0];
        let t = s.subrange(1, s.len() as int);
        let s1 = s.subrange(0, k);
        let t1 = s1.subrange(1, s1.len() as int);
        assert(s1[0] == m);
        assert(t1 =~= t.subrange(0, k - 1));
        if m < 0xA0 {
        } else if m < 0xB0 {
            let n = m - 0xA0;
            lemma_pairs_bounds(t, n);
            lemma_pairs_truncated(t, n, k - 1);
        } else if m < 0xC0 {
            let n = m - 0xB0;
            if k == 1 {
            } else {
                let u = t.subrange(1, t.len() as int);
                crate::wire::lemma_items_bounds(u, n);
                assert(t1[0] == t[0]);
                assert(t1.subrange(1, t1.len() as int) =~= u.subrange(0, k - 2));
                lemma_items_truncated(u, n, k - 2);
            }
        } else if m == 0xD0 || m == 0xD1 || m == 0xD3 || m == 0xD4 || m == 0xD5 || m == 0xD6 || m
            == 0xD8 || m == 0xD9 || m == 0xDA || m == 0xDC || m == 0xDD {
            let width: int = if m == 0xD0 || m == 0xD4 || m == 0xD8 || m == 0xDC {
                1
            } else if m == 0xD1 || m == 0xD5 || m == 0xD9 || m == 0xDD {
                2
            } else {
                4
            };
            if k - 1 < width {
            } else {
                assert(t1.subrange(0, width) =~= t.subrange(0, width));
                let n = crate::wire::be_val(t.subrange(0, width));
                let u = tail_from(t, width);
                let u1 = tail_from(t1, width);
                assert(u1 =~= u.subrange(0, k - 1 - width));
                if m == 0xD8 || m == 0xD9 || m == 0xDA {
                    lemma_pairs_bounds(u, n);
                    lemma_pairs_truncated(u, n, k - 1 - width);
                } else if m == 0xDC || m == 0xDD {
                    if k - 1 - width == 0 {
                    } else {
                        let z = u.subrange(1, u.len() as int);
                        crate::wire::lemma_items_bounds(z, n);
                        assert(u1[0] == u[0]);
                        assert(u1.subrange(1, u1.len() as int) =~= z.subrange(0, k - 2 - width));
                        lemma_items_truncated(z, n, k - 2 - width);
                    }
                } else {
                }
            }
        } else {
        }
    }
}

/// Cutting a run of consecutive units short makes its decoding fail.
pub proof fn lemma_items_truncated(s: Seq<u8>, n: int, k: int)
    requires
        spec_unpack_items(s, n) is Some,
        0 <= k < spec_unpack_items(s, n)->Some_0.1,
    ensures
        spec_unpack_items(s.subrange(0, k), n) is None,
    decreases s.len(), 1nat, (if n >= 0 { n } else { 0 }),
{
    match spec_unpack_next(s) {
        None => {},
        Some((v, c1)) => {
            lemma_next_bounds(s);
            let tail = tail_from(s, c1);
            crate::wire::lemma_items_bounds(tail, n - 1);
            if k < c1 {
                lemma_next_truncated(s, k);
            } else {
                lemma_next_restrict(s, k);
                lemma_items_truncated(tail, n - 1, k - c1);
            }
        },
    }
}

/// Cutting a run of consecutive pairs short makes its decoding fail.
pub proof fn lemma_pairs_truncated(s: Seq<u8>, n: int, k: int)
    requires
        spec_unpack_pairs(s, n) is Some,
        0 <= k < spec_unpack_pairs(s, n)->Some_0.1,
    ensures
        spec_unpack_pairs(s.subrange(0, k), n) is None,
    decreases s.len(), 1nat, (if n >= 0 { n } else { 0 }),
{
    match spec_unpack_next(s) {
        None => {},
        Some((kv, ck)) => {
            lemma_next_bounds(s);
            let s1 = tail_from(s, ck);
            match spec_unpack_next(s1) {
                None => {},
                Some((vv, cv)) => {
                    lemma_next_bounds(s1);
                    let s2 = tail_from(s1, cv);
                    lemma_pairs_bounds(s2, n - 1);
                    if k < ck {
                        lemma_next_truncated(s, k);
                    } else {
                        lemma_next_restrict(s, k);
                        if k - ck < cv {
                            lemma_next_truncated(s1, k - ck);
                        } else {
                            lemma_next_restrict(s1, k - ck);
                            lemma_pairs_truncated(s2, n - 1, k - ck - cv);
                        }
                    }
                },
            }
        },
    }
}

/// Truncating an encoded unit, by one byte or more, yields a decode
/// failure, never a silently wrong value.
pub proof fn lemma_truncation_fails(s: Seq<u8>, k: int)
    requires
        spec_unpack_next(s) is Some,
        0 <= k < spec_unpack_next(s)->Some_0.1,
    ensures
        spec_unpack_next(s.subrange(0, k)) is None,
        k > 0 ==> spec_unpack_all(s.subrange(0, k)) is None,
{
    lemma_next_truncated(s, k);
    lemma_next_bounds(s);
    if k > 0 {
        let s1 = s.subrange(0, k);
        assert(s1.len() == k);
        assert(spec_unpack_run(s1).2 == false);
    }
}

/// Every one-byte buffer whose byte is at most 0x7F decodes to exactly
/// that tiny integer.
pub proof fn lemma_tiny_int_decodes(m: u8)
    requires
        m < 0x80,
    ensures
        spec_unpack_all(seq![m]) == Some(seq![SpecValue::TinyInt(m as int)]),
{
    let s = seq![m];
    assert(s.subrange(1, 1) =~= Seq::<u8>::empty());
    assert(spec_unpack_next(s) == Some((SpecValue::TinyInt(m as int), 1int)));
    assert(tail_from(s, 1) =~= Seq::<u8>::empty());
    assert(spec_unpack_run(tail_from(s, 1)).0 =~= Seq::<SpecValue>::empty());
    assert(spec_unpack_run(s).2);
    assert(spec_unpack_run(s).0 =~= seq![SpecValue::TinyInt(m as int)]);
}

/// Decoding the concatenation of two independently valid encodings
/// yields the concatenation of their value sequences, in order.
pub proof fn lemma_decode_concat(a: Seq<u8>, b: Seq<u8>)
    requires
        spec_unpack_all(a) is Some,
        spec_unpack_all(b) is Some,
    ensures
        spec_unpack_all(a + b) == Some(
            spec_unpack_all(a)->Some_0 + spec_unpack_all(b)->Some_0,
        ),
{
    lemma_run_concat(a, b);
}

} // verus!

