//! The byte format in which execution contexts travel: little-endian `u64`
//! lengths, length-prefixed byte strings, UTF-8 text and counted lists.
//! Each parser reads at a position and reports where it stopped; it accepts
//! exactly the encodings of values and reads back the value encoded.
use vstd::prelude::*;
use vstd::bytes::{spec_u64_to_le_bytes, u64_to_le_bytes, u64_from_le_bytes, lemma_auto_spec_u64_to_from_le_bytes, spec_u64_from_le_bytes};
use vstd::utf8::{encode_utf8, valid_utf8, encode_utf8_valid_utf8, encode_utf8_decode_utf8};

verus! {

/// An unsigned integer as 8 little-endian bytes.
pub open spec fn ser_u64(n: u64) -> Seq<u8> {
    spec_u64_to_le_bytes(n)
}

/// A byte string, preceded by its length.
pub open spec fn ser_bytes(b: Seq<u8>) -> Seq<u8> {
    ser_u64(b.len() as u64) + b
}

/// Text as the length-prefixed bytes of its UTF-8 encoding.
pub open spec fn ser_str(s: Seq<char>) -> Seq<u8> {
    ser_bytes(encode_utf8(s))
}

/// The encodings of a list's items, one after another.
pub open spec fn cat_strs(ss: Seq<Seq<char>>) -> Seq<u8>
    decreases ss.len(),
{
    if ss.len() == 0 {
        Seq::empty()
    } else {
        ser_str(ss[0]) + cat_strs(ss.drop_first())
    }
}

/// A list of texts: its count, then each text.
pub open spec fn ser_strs(ss: Seq<Seq<char>>) -> Seq<u8> {
    ser_u64(ss.len() as u64) + cat_strs(ss)
}

/// The encodings of a list of indices, one after another.
pub open spec fn cat_indices(v: Seq<usize>) -> Seq<u8>
    decreases v.len(),
{
    if v.len() == 0 {
        Seq::empty()
    } else {
        ser_u64(v[0] as u64) + cat_indices(v.drop_first())
    }
}

/// A list of indices: its count, then each index.
pub open spec fn ser_indices(v: Seq<usize>) -> Seq<u8> {
    ser_u64(v.len() as u64) + cat_indices(v)
}

/// Appending an item to a list appends its encoding.
pub proof fn lemma_cat_strs_push(ss: Seq<Seq<char>>, s: Seq<char>)
    ensures
        cat_strs(ss.push(s)) == cat_strs(ss) + ser_str(s),
    decreases ss.len(),
{
    if ss.len() == 0 {
        assert(ss.push(s).drop_first() =~= Seq::<Seq<char>>::empty());
        assert(cat_strs(ss.push(s).drop_first()) == Seq::<u8>::empty());
        assert(cat_strs(ss) == Seq::<u8>::empty());
        assert(cat_strs(ss.push(s)) =~= cat_strs(ss) + ser_str(s));
    } else {
        lemma_cat_strs_push(ss.drop_first(), s);
        assert(ss.push(s).drop_first() =~= ss.drop_first().push(s));
        assert(cat_strs(ss.push(s)) =~= cat_strs(ss) + ser_str(s));
    }
}

/// Appending an index to a list appends its encoding.
pub proof fn lemma_cat_indices_push(v: Seq<usize>, x: usize)
    ensures
        cat_indices(v.push(x)) == cat_indices(v) + ser_u64(x as u64),
    decreases v.len(),
{
    if v.len() == 0 {
        assert(v.push(x).drop_first() =~= Seq::<usize>::empty());
        assert(cat_indices(v.push(x).drop_first()) == Seq::<u8>::empty());
        assert(cat_indices(v) == Seq::<u8>::empty());
        assert(cat_indices(v.push(x)) =~= cat_indices(v) + ser_u64(x as u64));
    } else {
        lemma_cat_indices_push(v.drop_first(), x);
        assert(v.push(x).drop_first() =~= v.drop_first().push(x));
        assert(cat_indices(v.push(x)) =~= cat_indices(v) + ser_u64(x as u64));
    }
}

/// Relies on `String::from_utf8`: it accepts exactly the valid UTF-8 byte
/// strings, and the text it returns is encoded by those bytes.
#[verifier::external_body]
fn string_from_utf8(v: Vec<u8>) -> (r: Option<String>)
    ensures
        r is Some <==> valid_utf8(v@),
        r matches Some(s) ==> encode_utf8(s@) == v@,
{
    String::from_utf8(v).ok()
}

/// Appends the 8 bytes of `n`.
pub fn write_u64(out: &mut Vec<u8>, n: u64)
    ensures
        final(out)@ == old(out)@ + ser_u64(n),
{
    let b = u64_to_le_bytes(n);
    let mut i: usize = 0;
    while i < 8
        invariant
            b@.len() == 8,
            b@ == ser_u64(n),
            i <= 8,
            out@ == old(out)@ + b@.subrange(0, i as int),
        decreases 8 - i,
    {
        out.push(b[i]);
        i = i + 1;
    }
    assert(b@.subrange(0, 8) =~= b@);
}

/// Appends the length-prefixed bytes `b`.
pub fn write_bytes(out: &mut Vec<u8>, b: &[u8])
    ensures
        final(out)@ == old(out)@ + ser_bytes(b@),
{
    write_u64(out, b.len() as u64);
    let ghost mid = out@;
    let mut i: usize = 0;
    while i < b.len()
        invariant
            i <= b@.len(),
            out@ == mid + b@.subrange(0, i as int),
        decreases b@.len() - i,
    {
        out.push(b[i]);
        i = i + 1;
    }
    assert(out@ =~= old(out)@ + ser_bytes(b@));
}

/// Appends the encoding of the text `s`.
pub fn write_str(out: &mut Vec<u8>, s: &String)
    ensures
        final(out)@ == old(out)@ + ser_str(s@),
{
    write_bytes(out, s.as_str().as_bytes());
}

/// Appends the encoding of a list of texts.
pub fn write_strs(out: &mut Vec<u8>, ss: &Vec<String>)
    ensures
        final(out)@ == old(out)@ + ser_strs(crate::plan::names_of(ss@)),
{
    let ghost names = crate::plan::names_of(ss@);
    write_u64(out, ss.len() as u64);
    let ghost mid = out@;
    let mut i: usize = 0;
    while i < ss.len()
        invariant
            i <= ss@.len(),
            names == crate::plan::names_of(ss@),
            out@ == mid + cat_strs(names.subrange(0, i as int)),
        decreases ss@.len() - i,
    {
        write_str(out, &ss[i]);
        proof {
            lemma_cat_strs_push(names.subrange(0, i as int), names[i as int]);
            assert(names.subrange(0, i as int).push(names[i as int]) =~= names.subrange(0, i + 1));
        }
        i = i + 1;
    }
    assert(names.subrange(0, ss@.len() as int) =~= names);
    assert(out@ =~= old(out)@ + ser_strs(names));
}

/// Appends the encoding of a list of indices.
pub fn write_indices(out: &mut Vec<u8>, v: &Vec<usize>)
    ensures
        final(out)@ == old(out)@ + ser_indices(v@),
{
    write_u64(out, v.len() as u64);
    let ghost mid = out@;
    let mut i: usize = 0;
    while i < v.len()
        invariant
            i <= v@.len(),
            out@ == mid + cat_indices(v@.subrange(0, i as int)),
        decreases v@.len() - i,
    {
        write_u64(out, v[i] as u64);
        proof {
            lemma_cat_indices_push(v@.subrange(0, i as int), v@[i as int]);
            assert(v@.subrange(0, i as int).push(v@[i as int]) =~= v@.subrange(0, i + 1));
        }
        i = i + 1;
    }
    assert(v@.subrange(0, v@.len() as int) =~= v@);
    assert(out@ =~= old(out)@ + ser_indices(v@));
}

/// `b` holds the bytes `e` at `pos`.
pub open spec fn encodes_at(b: Seq<u8>, pos: int, e: Seq<u8>) -> bool {
    0 <= pos && pos + e.len() <= b.len() && b.subrange(pos, pos + e.len()) == e
}

/// Two encodings side by side are found one after the other.
pub proof fn lemma_encodes_at_concat(b: Seq<u8>, pos: int, e1: Seq<u8>, e2: Seq<u8>)
    ensures
        encodes_at(b, pos, e1 + e2) <==> (encodes_at(b, pos, e1) && encodes_at(b, pos + e1.len(), e2)),
{
    let n1 = e1.len() as int;
    let n2 = e2.len() as int;
    if encodes_at(b, pos, e1 + e2) {
        assert(b.subrange(pos, pos + n1) =~= (e1 + e2).subrange(0, n1));
        assert((e1 + e2).subrange(0, n1) =~= e1);
        assert(b.subrange(pos + n1, pos + n1 + n2) =~= (e1 + e2).subrange(n1, n1 + n2));
        assert((e1 + e2).subrange(n1, n1 + n2) =~= e2);
    }
    if encodes_at(b, pos, e1) && encodes_at(b, pos + n1, e2) {
        let whole = b.subrange(pos, pos + n1 + n2);
        assert forall|i: int| 0 <= i < n1 + n2 implies whole[i] == (e1 + e2)[i] by {
            if i < n1 {
                assert(b.subrange(pos, pos + n1)[i] == e1[i]);
            } else {
                assert(b.subrange(pos + n1, pos + n1 + n2)[i - n1] == e2[i - n1]);
            }
        }
        assert(whole =~= e1 + e2);
    }
}

/// Reads the 8-byte integer at `pos`.
pub fn read_u64(b: &[u8], pos: usize) -> (r: Option<(u64, usize)>)
    ensures
        r matches Some((n, p)) ==> encodes_at(b@, pos as int, ser_u64(n)) && p == pos + 8,
        forall|n: u64| #[trigger] encodes_at(b@, pos as int, ser_u64(n)) ==> r == Some((n, (pos + 8) as usize)),
{
    proof {
        lemma_auto_spec_u64_to_from_le_bytes();
    }
    if pos > b.len() || b.len() - pos < 8 {
        return None;
    }
    let end: usize = pos + 8;
    let mut v: Vec<u8> = Vec::new();
    let mut i: usize = 0;
    while i < 8
        invariant
            end == pos + 8,
            end <= b@.len(),
            i <= 8,
            v@ == b@.subrange(pos as int, pos + i),
        decreases 8 - i,
    {
        v.push(b[pos + i]);
        i = i + 1;
    }
    let n = u64_from_le_bytes(v.as_slice());
    proof {
        assert(spec_u64_to_le_bytes(spec_u64_from_le_bytes(v@)) == v@);
    }
    Some((n, end))
}

/// Reads the length-prefixed byte string at `pos`.
pub fn read_bytes(b: &[u8], pos: usize) -> (r: Option<(Vec<u8>, usize)>)
    ensures
        r matches Some((v, p)) ==> encodes_at(b@, pos as int, ser_bytes(v@)) && p == pos + ser_bytes(v@).len(),
        forall|x: Seq<u8>| #[trigger] encodes_at(b@, pos as int, ser_bytes(x))
            ==> (r matches Some((v, p)) && v@ == x && p == pos + ser_bytes(x).len()),
{
    proof {
        lemma_auto_spec_u64_to_from_le_bytes();
        assert forall|x: Seq<u8>| #[trigger] encodes_at(b@, pos as int, ser_bytes(x)) implies encodes_at(b@, pos as int, ser_u64(x.len() as u64))
            && encodes_at(b@, pos + 8, x) by {
            lemma_encodes_at_concat(b@, pos as int, ser_u64(x.len() as u64), x);
        }
    }
    let (n, p) = match read_u64(b, pos) {
        Some(r) => r,
        None => return None,
    };
    if n as u128 > (b.len() - p) as u128 {
        return None;
    }
    let end: usize = p + n as usize;
    let mut v: Vec<u8> = Vec::new();
    let mut i: usize = p;
    while i < end
        invariant
            p <= i <= end,
            end <= b@.len(),
            v@ == b@.subrange(p as int, i as int),
        decreases end - i,
    {
        v.push(b[i]);
        i = i + 1;
    }
    proof {
        assert(v@.len() == n);
        lemma_encodes_at_concat(b@, pos as int, ser_u64(n), v@);
        assert forall|x: Seq<u8>| #[trigger] encodes_at(b@, pos as int, ser_bytes(x))
            implies v@ == x by {
            assert(encodes_at(b@, pos as int, ser_u64(x.len() as u64)));
            assert(x.len() as u64 == n);
        }
    }
    Some((v, end))
}

/// Reads the text at `pos`.
pub fn read_str(b: &[u8], pos: usize) -> (r: Option<(String, usize)>)
    ensures
        r matches Some((s, p)) ==> encodes_at(b@, pos as int, ser_str(s@)) && p == pos + ser_str(s@).len(),
        forall|x: Seq<char>| #[trigger] encodes_at(b@, pos as int, ser_str(x))
            ==> (r matches Some((s, p)) && s@ == x && p == pos + ser_str(x).len()),
{
    let (v, p) = match read_bytes(b, pos) {
        Some(r) => r,
        None => {
            proof {
                assert forall|x: Seq<char>| #[trigger] encodes_at(b@, pos as int, ser_str(x)) implies false by {
                    assert(encodes_at(b@, pos as int, ser_bytes(encode_utf8(x))));
                }
            }
            return None;
        },
    };
    let ghost bytes = v@;
    proof {
        assert forall|x: Seq<char>| #[trigger] encodes_at(b@, pos as int, ser_str(x)) implies encode_utf8(x) == bytes by {
            assert(encodes_at(b@, pos as int, ser_bytes(encode_utf8(x))));
        }
    }
    match string_from_utf8(v) {
        Some(s) => {
            proof {
                assert forall|x: Seq<char>| #[trigger] encodes_at(b@, pos as int, ser_str(x)) implies s@ == x by {
                    encode_utf8_decode_utf8(x);
                    encode_utf8_decode_utf8(s@);
                }
            }
            Some((s, p))
        },
        None => {
            proof {
                assert forall|x: Seq<char>| #[trigger] encodes_at(b@, pos as int, ser_str(x)) implies false by {
                    encode_utf8_valid_utf8(x);
                }
            }
            None
        },
    }
}

/// A list's encoding takes at least one byte per item.
pub proof fn lemma_cat_strs_len(ss: Seq<Seq<char>>)
    ensures
        cat_strs(ss).len() >= ss.len(),
    decreases ss.len(),
{
    lemma_auto_spec_u64_to_from_le_bytes();
    if ss.len() > 0 {
        lemma_cat_strs_len(ss.drop_first());
    }
}

/// A list's encoding takes at least one byte per item.
pub proof fn lemma_cat_indices_len(v: Seq<usize>)
    ensures
        cat_indices(v).len() >= v.len(),
    decreases v.len(),
{
    lemma_auto_spec_u64_to_from_le_bytes();
    if v.len() > 0 {
        lemma_cat_indices_len(v.drop_first());
    }
}

/// Reads the list of texts at `pos`.
pub fn read_strs(b: &[u8], pos: usize) -> (r: Option<(Vec<String>, usize)>)
    ensures
        r matches Some((ss, p)) ==> encodes_at(b@, pos as int, ser_strs(crate::plan::names_of(ss@)))
            && p == pos + ser_strs(crate::plan::names_of(ss@)).len(),
        forall|x: Seq<Seq<char>>| #[trigger] encodes_at(b@, pos as int, ser_strs(x))
            ==> (r matches Some((ss, p)) && crate::plan::names_of(ss@) == x && p == pos + ser_strs(x).len()),
{
    proof {
        lemma_auto_spec_u64_to_from_le_bytes();
        assert forall|x: Seq<Seq<char>>| #[trigger] encodes_at(b@, pos as int, ser_strs(x))
            implies encodes_at(b@, pos as int, ser_u64(x.len() as u64)) && encodes_at(b@, pos + 8, cat_strs(x)) by {
            lemma_encodes_at_concat(b@, pos as int, ser_u64(x.len() as u64), cat_strs(x));
        }
    }
    let (n, body_at) = match read_u64(b, pos) {
        Some(r) => r,
        None => return None,
    };
    let blen: usize = b.len();
    let mut out: Vec<String> = Vec::new();
    proof {
        assert(crate::plan::names_of(out@) =~= Seq::<Seq<char>>::empty());
        assert(b@.subrange(body_at as int, body_at as int) =~= Seq::<u8>::empty());
        assert forall|x: Seq<Seq<char>>| #[trigger] encodes_at(b@, pos as int, ser_strs(x))
            implies x.len() == n && crate::plan::names_of(out@) == x.subrange(0, 0)
            && encodes_at(b@, body_at as int, cat_strs(x.subrange(0, x.len() as int))) by {
            lemma_cat_strs_len(x);
            assert(encodes_at(b@, pos as int, ser_u64(x.len() as u64)));
            assert(encodes_at(b@, pos + 8, cat_strs(x)));
            assert(x.len() <= b@.len());
            assert(b@.len() == blen);
            assert(x.len() as u64 == n);
            assert(x.subrange(0, x.len() as int) =~= x);
            assert(x.subrange(0, 0) =~= Seq::<Seq<char>>::empty());
        }
    }
    let mut p: usize = body_at;
    let mut k: u64 = 0;
    while k < n
        invariant
            body_at == pos + 8,
            k <= n,
            out@.len() == k,
            encodes_at(b@, pos as int, ser_u64(n)),
            encodes_at(b@, body_at as int, cat_strs(crate::plan::names_of(out@))),
            p == body_at + cat_strs(crate::plan::names_of(out@)).len(),
            forall|x: Seq<Seq<char>>| #[trigger] encodes_at(b@, pos as int, ser_strs(x))
                ==> x.len() == n && crate::plan::names_of(out@) == x.subrange(0, k as int)
                && encodes_at(b@, p as int, cat_strs(x.subrange(k as int, x.len() as int))),
        decreases n - k,
    {
        let ghost before = crate::plan::names_of(out@);
        let (s, q) = match read_str(b, p) {
            Some(r) => r,
            None => {
                proof {
                    assert forall|x: Seq<Seq<char>>| #[trigger] encodes_at(b@, pos as int, ser_strs(x)) implies false by {
                        let tail = x.subrange(k as int, x.len() as int);
                        assert(tail.drop_first() =~= x.subrange(k + 1, x.len() as int));
                        lemma_encodes_at_concat(b@, p as int, ser_str(tail[0]), cat_strs(tail.drop_first()));
                    }
                }
                return None;
            },
        };
        out.push(s);
        proof {
            assert(crate::plan::names_of(out@) =~= before.push(s@));
            lemma_cat_strs_push(before, s@);
            lemma_encodes_at_concat(b@, body_at as int, cat_strs(before), ser_str(s@));
            assert forall|x: Seq<Seq<char>>| #[trigger] encodes_at(b@, pos as int, ser_strs(x))
                implies crate::plan::names_of(out@) == x.subrange(0, k + 1)
                && encodes_at(b@, q as int, cat_strs(x.subrange(k + 1, x.len() as int))) by {
                let tail = x.subrange(k as int, x.len() as int);
                assert(tail.drop_first() =~= x.subrange(k + 1, x.len() as int));
                lemma_encodes_at_concat(b@, p as int, ser_str(tail[0]), cat_strs(tail.drop_first()));
                assert(x.subrange(0, k + 1) =~= x.subrange(0, k as int).push(tail[0]));
            }
        }
        p = q;
        k = k + 1;
    }
    proof {
        lemma_encodes_at_concat(b@, pos as int, ser_u64(n), cat_strs(crate::plan::names_of(out@)));
        assert forall|x: Seq<Seq<char>>| #[trigger] encodes_at(b@, pos as int, ser_strs(x))
            implies crate::plan::names_of(out@) == x by {
            assert(x.subrange(0, k as int) =~= x);
        }
    }
    Some((out, p))
}

/// Reads the list of indices at `pos`.
pub fn read_indices(b: &[u8], pos: usize) -> (r: Option<(Vec<usize>, usize)>)
    ensures
        r matches Some((ss, p)) ==> encodes_at(b@, pos as int, ser_indices(ss@))
            && p == pos + ser_indices(ss@).len(),
        forall|x: Seq<usize>| #[trigger] encodes_at(b@, pos as int, ser_indices(x))
            ==> (r matches Some((ss, p)) && ss@ == x && p == pos + ser_indices(x).len()),
{
    proof {
        lemma_auto_spec_u64_to_from_le_bytes();
        assert forall|x: Seq<usize>| #[trigger] encodes_at(b@, pos as int, ser_indices(x))
            implies encodes_at(b@, pos as int, ser_u64(x.len() as u64)) && encodes_at(b@, pos + 8, cat_indices(x)) by {
            lemma_encodes_at_concat(b@, pos as int, ser_u64(x.len() as u64), cat_indices(x));
        }
    }
    let (n, body_at) = match read_u64(b, pos) {
        Some(r) => r,
        None => return None,
    };
    let blen: usize = b.len();
    let mut out: Vec<usize> = Vec::new();
    proof {
        assert(out@ =~= Seq::<usize>::empty());
        assert(b@.subrange(body_at as int, body_at as int) =~= Seq::<u8>::empty());
        assert forall|x: Seq<usize>| #[trigger] encodes_at(b@, pos as int, ser_indices(x))
            implies x.len() == n && out@ == x.subrange(0, 0)
            && encodes_at(b@, body_at as int, cat_indices(x.subrange(0, x.len() as int))) by {
            lemma_cat_indices_len(x);
            assert(encodes_at(b@, pos as int, ser_u64(x.len() as u64)));
            assert(encodes_at(b@, pos + 8, cat_indices(x)));
            assert(x.len() <= b@.len());
            assert(b@.len() == blen);
            assert(x.len() as u64 == n);
            assert(x.subrange(0, x.len() as int) =~= x);
            assert(x.subrange(0, 0) =~= Seq::<usize>::empty());
        }
    }
    let mut p: usize = body_at;
    let mut k: u64 = 0;
    while k < n
        invariant
            body_at == pos + 8,
            k <= n,
            out@.len() == k,
            encodes_at(b@, pos as int, ser_u64(n)),
            encodes_at(b@, body_at as int, cat_indices(out@)),
            p == body_at + cat_indices(out@).len(),
            forall|x: Seq<usize>| #[trigger] encodes_at(b@, pos as int, ser_indices(x))
                ==> x.len() == n && out@ == x.subrange(0, k as int)
                && encodes_at(b@, p as int, cat_indices(x.subrange(k as int, x.len() as int))),
        decreases n - k,
    {
        let ghost before = out@;
        let (m, q) = match read_u64(b, p) {
            Some(r) => r,
            None => {
                proof {
                    assert forall|x: Seq<usize>| #[trigger] encodes_at(b@, pos as int, ser_indices(x)) implies false by {
                        let tail = x.subrange(k as int, x.len() as int);
                        assert(tail.drop_first() =~= x.subrange(k + 1, x.len() as int));
                        lemma_encodes_at_concat(b@, p as int, ser_u64(tail[0] as u64), cat_indices(tail.drop_first()));
                    }
                }
                return None;
            },
        };
        if m as u128 > usize::MAX as u128 {
            proof {
                assert forall|x: Seq<usize>| #[trigger] encodes_at(b@, pos as int, ser_indices(x)) implies false by {
                    let tail = x.subrange(k as int, x.len() as int);
                    assert(tail.drop_first() =~= x.subrange(k + 1, x.len() as int));
                    lemma_encodes_at_concat(b@, p as int, ser_u64(tail[0] as u64), cat_indices(tail.drop_first()));
                }
            }
            return None;
        }
        let s = m as usize;
        out.push(s);
        proof {
            assert(s as u64 == m);
            lemma_auto_spec_u64_to_from_le_bytes();
            assert(ser_u64(m).len() == 8);
            assert(out@ =~= before.push(s));
            lemma_cat_indices_push(before, s);
            lemma_encodes_at_concat(b@, body_at as int, cat_indices(before), ser_u64(s as u64));
            assert forall|x: Seq<usize>| #[trigger] encodes_at(b@, pos as int, ser_indices(x))
                implies out@ == x.subrange(0, k + 1)
                && encodes_at(b@, q as int, cat_indices(x.subrange(k + 1, x.len() as int))) by {
                let tail = x.subrange(k as int, x.len() as int);
                assert(tail.drop_first() =~= x.subrange(k + 1, x.len() as int));
                lemma_encodes_at_concat(b@, p as int, ser_u64(tail[0] as u64), cat_indices(tail.drop_first()));
                assert(encodes_at(b@, p as int, ser_u64(tail[0] as u64)));
                assert(m == tail[0] as u64);
                assert(s == tail[0]);
                assert(x.subrange(0, k + 1) =~= x.subrange(0, k as int).push(tail[0]));
            }
        }
        p = q;
        k = k + 1;
    }
    proof {
        lemma_encodes_at_concat(b@, pos as int, ser_u64(n), cat_indices(out@));
        assert forall|x: Seq<usize>| #[trigger] encodes_at(b@, pos as int, ser_indices(x))
            implies out@ == x by {
            assert(x.subrange(0, k as int) =~= x);
        }
    }
    Some((out, p))
}

} // verus!
