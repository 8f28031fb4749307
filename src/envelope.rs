//! The envelope in which a context is stored in a function's configuration:
//! the JSON object `{"context":"<hex>","encoding":<tag>}`.
use vstd::prelude::*;
use vstd::string::{is_ascii_spec_bytes, is_ascii};
use vstd::utf8::is_ascii_chars;
use crate::encoding::{Encoding, encoding_of_tag, tag_of};
use crate::naming::{digit_char, digit_str};

verus! {

/// The lowercase hexadecimal digit for `d < 16`.
pub open spec fn hex_char(d: nat) -> char {
    if d < 10 {
        digit_char(d)
    } else if d == 10 { 'a' }
    else if d == 11 { 'b' }
    else if d == 12 { 'c' }
    else if d == 13 { 'd' }
    else if d == 14 { 'e' }
    else { 'f' }
}

/// Each byte as two lowercase hexadecimal digits, high digit first.
pub open spec fn hex_of(b: Seq<u8>) -> Seq<char> {
    Seq::new(2 * b.len(), |i: int| if i % 2 == 0 { hex_char((b[i / 2] / 16) as nat) } else { hex_char((b[i / 2] % 16) as nat) })
}

pub open spec fn open_text() -> Seq<char> {
    seq!['{', '"', 'c', 'o', 'n', 't', 'e', 'x', 't', '"', ':', '"']
}

pub open spec fn middle_text() -> Seq<char> {
    seq!['"', ',', '"', 'e', 'n', 'c', 'o', 'd', 'i', 'n', 'g', '"', ':']
}

/// The envelope of a (possibly compressed) context under the codec tag `tag`.
pub open spec fn envelope_text(context: Seq<u8>, tag: u8) -> Seq<char> {
    open_text() + hex_of(context) + middle_text() + seq![digit_char(tag as nat)] + seq!['}']
}

/// The serialized context, compressed under `encoding`, with the codec's tag.
#[derive(Debug, Clone)]
pub struct CloudEnvironment {
    pub context: Vec<u8>,
    pub encoding: Encoding,
}

/// Why a context could not be packed or unpacked.
#[derive(Debug, Clone, Copy, PartialEq, Eq, Structural)]
pub enum ContextError {
    /// The envelope or the context inside it is not well formed.
    Malformed,
    /// The envelope names a codec that this build does not know.
    UnsupportedEncoding(u8),
    /// The serialized context is longer than a codec can describe.
    TooLarge,
    /// The codec could not decompress the context.
    Decompress,
}

/// Two envelopes are equal when they hold the same bytes under the same codec.
impl PartialEq for CloudEnvironment {
    fn eq(&self, other: &CloudEnvironment) -> (r: bool) {
        if self.encoding != other.encoding || self.context.len() != other.context.len() {
            return false;
        }
        let mut i: usize = 0;
        while i < self.context.len()
            invariant
                self.context@.len() == other.context@.len(),
                i <= self.context@.len(),
                forall|k: int| 0 <= k < i ==> self.context@[k] == other.context@[k],
            decreases self.context@.len() - i,
        {
            if self.context[i] != other.context[i] {
                return false;
            }
            i = i + 1;
        }
        assert(self.context@ =~= other.context@);
        true
    }
}

impl vstd::std_specs::cmp::PartialEqSpecImpl for CloudEnvironment {
    open spec fn obeys_eq_spec() -> bool {
        true
    }

    open spec fn eq_spec(&self, other: &CloudEnvironment) -> bool {
        self.context@ == other.context@ && self.encoding == other.encoding
    }
}

fn hex_str(d: u8) -> (r: &'static str)
    requires
        d < 16,
    ensures
        r@ == seq![hex_char(d as nat)],
{
    if d < 10 {
        digit_str(d as usize)
    } else if d == 10 {
        proof { reveal_strlit("a"); }
        "a"
    } else if d == 11 {
        proof { reveal_strlit("b"); }
        "b"
    } else if d == 12 {
        proof { reveal_strlit("c"); }
        "c"
    } else if d == 13 {
        proof { reveal_strlit("d"); }
        "d"
    } else if d == 14 {
        proof { reveal_strlit("e"); }
        "e"
    } else {
        proof { reveal_strlit("f"); }
        "f"
    }
}

/// The value of a lowercase hexadecimal digit's code.
fn hex_value(c: u8) -> (r: Option<u8>)
    ensures
        r matches Some(d) ==> d < 16 && hex_char(d as nat) as u8 == c,
        forall|d: nat| d < 16 && #[trigger] hex_char(d) as u8 == c ==> r == Some(d as u8),
{
    if 48 <= c && c <= 57 {
        Some(c - 48)
    } else if 97 <= c && c <= 102 {
        Some(c - 87)
    } else {
        None
    }
}

/// Every character of an envelope is ASCII.
proof fn lemma_envelope_ascii(context: Seq<u8>, tag: u8)
    requires
        tag < 10,
    ensures
        is_ascii_chars(envelope_text(context, tag)),
{
    let e = envelope_text(context, tag);
    assert forall|i: int| 0 <= i < e.len() implies '\0' <= #[trigger] e[i] <= '\u{7f}' by {
        if 12 <= i < 12 + 2 * context.len() {
            let k = i - 12;
            assert(e[i] == hex_of(context)[k]);
        }
    }
}

/// Do the bytes at `pos` spell out `text`, one byte per character?
fn matches_text(b: &[u8], pos: usize, text: &str) -> (r: bool)
    requires
        is_ascii_chars(text@),
        pos + text@.len() <= b@.len(),
    ensures
        r == forall|i: int| 0 <= i < text@.len() ==> b@[pos + i] == #[trigger] text@[i] as u8,
{
    let t = text.as_bytes();
    proof {
        vstd::utf8::is_ascii_chars_encode_utf8(text@);
    }
    let blen: usize = b.len();
    let mut i: usize = 0;
    while i < t.len()
        invariant
            blen == b@.len(),
            t@.len() == text@.len(),
            forall|k: int| 0 <= k < text@.len() ==> t@[k] == #[trigger] text@[k] as u8,
            pos + text@.len() <= b@.len(),
            i <= t@.len(),
            forall|k: int| 0 <= k < i ==> b@[pos + k] == #[trigger] text@[k] as u8,
        decreases t@.len() - i,
    {
        if b[pos + i] != t[i] {
            assert(t@[i as int] == text@[i as int] as u8);
            return false;
        }
        i = i + 1;
    }
    true
}

/// Reads an envelope's hexadecimal context and its codec tag.
fn parse_envelope(s: &str) -> (r: Option<(Vec<u8>, u8)>)
    ensures
        r matches Some((c, t)) ==> t < 10 && s@ == envelope_text(c@, t),
        forall|c: Seq<u8>, t: u8| t < 10 && #[trigger] envelope_text(c, t) == s@
            ==> (r matches Some((c2, t2)) && c2@ == c && t2 == t),
{
    proof {
        assert forall|c: Seq<u8>, t: u8| t < 10 && #[trigger] envelope_text(c, t) == s@ implies is_ascii(s) by {
            lemma_envelope_ascii(c, t);
        }
    }
    if !s.is_ascii() {
        return None;
    }
    let b = s.as_bytes();
    proof {
        is_ascii_spec_bytes(s);
        assert(b@ =~= Seq::new(s@.len(), |i| s@[i] as u8));
    }
    let n = b.len();
    if n < 27 || (n - 27) % 2 != 0 {
        proof {
            assert forall|c: Seq<u8>, t: u8| t < 10 && #[trigger] envelope_text(c, t) == s@ implies false by {
                assert(envelope_text(c, t).len() == 27 + 2 * c.len());
            }
        }
        return None;
    }
    let m = (n - 27) / 2;
    proof { reveal_strlit("{\"context\":\""); }
    if !matches_text(b, 0, "{\"context\":\"") {
        proof {
            assert forall|c: Seq<u8>, t: u8| t < 10 && #[trigger] envelope_text(c, t) == s@ implies false by {
                assert forall|i: int| 0 <= i < 12 implies b@[0 + i] == #[trigger] open_text()[i] as u8 by {
                    assert(envelope_text(c, t)[i] == open_text()[i]);
                }
            }
        }
        return None;
    }
    proof {
        assert forall|i: int| 0 <= i < 12 implies b@[i] == #[trigger] open_text()[i] as u8 by {
            assert(b@[0 + i] == "{\"context\":\""@[i] as u8);
        }
    }
    let mut ctx: Vec<u8> = Vec::new();
    let mut k: usize = 0;
    while k < m
        invariant
            n == b@.len(),
            n == 27 + 2 * m,
            b@ == Seq::new(s@.len(), |i| s@[i] as u8),
            k <= m,
            ctx@.len() == k,
            forall|i: int| 0 <= i < 12 ==> b@[i] == #[trigger] open_text()[i] as u8,
            forall|j: int| 0 <= j < 2 * k ==> b@[12 + j] == #[trigger] hex_of(ctx@)[j] as u8,
            forall|c: Seq<u8>, t: u8| t < 10 && #[trigger] envelope_text(c, t) == s@
                ==> c.len() == m && ctx@ == c.subrange(0, k as int),
        decreases m - k,
    {
        let hi = hex_value(b[12 + 2 * k]);
        let lo = hex_value(b[13 + 2 * k]);
        proof {
            assert forall|c: Seq<u8>, t: u8| t < 10 && #[trigger] envelope_text(c, t) == s@
                implies hi == Some((c[k as int] / 16) as u8) && lo == Some((c[k as int] % 16) as u8) by {
                let e = envelope_text(c, t);
                assert(e[12 + 2 * k] == hex_of(c)[2 * k]);
                assert(e[13 + 2 * k] == hex_of(c)[2 * k + 1]);
                assert(hex_char((c[k as int] / 16) as nat) as u8 == b@[12 + 2 * k]);
                assert(hex_char((c[k as int] % 16) as nat) as u8 == b@[13 + 2 * k]);
            }
        }
        match (hi, lo) {
            (Some(h), Some(l)) => {
                let ghost before = ctx@;
                ctx.push(h * 16 + l);
                proof {
                    assert forall|j: int| 0 <= j < 2 * (k + 1) implies b@[12 + j] == #[trigger] hex_of(ctx@)[j] as u8 by {
                        if j < 2 * k {
                            assert(hex_of(ctx@)[j] == hex_of(before)[j]);
                        }
                    }
                    assert forall|c: Seq<u8>, t: u8| t < 10 && #[trigger] envelope_text(c, t) == s@
                        implies ctx@ == c.subrange(0, k + 1) by {
                        assert(ctx@ =~= c.subrange(0, k + 1));
                    }
                }
            },
            _ => {
                return None;
            },
        }
        k = k + 1;
    }
    let mid_at: usize = 12 + 2 * m;
    proof { reveal_strlit("\",\"encoding\":"); }
    if !matches_text(b, mid_at, "\",\"encoding\":") {
        proof {
            assert forall|c: Seq<u8>, t: u8| t < 10 && #[trigger] envelope_text(c, t) == s@ implies false by {
                assert forall|i: int| 0 <= i < 13 implies b@[mid_at + i] == #[trigger] middle_text()[i] as u8 by {
                    assert(envelope_text(c, t)[mid_at + i] == middle_text()[i]);
                }
            }
        }
        return None;
    }
    let d = b[mid_at + 13];
    if d < 48 || d > 57 || b[mid_at + 14] != 125 {
        proof {
            assert forall|c: Seq<u8>, t: u8| t < 10 && #[trigger] envelope_text(c, t) == s@ implies false by {
                assert(envelope_text(c, t)[mid_at + 13] == digit_char(t as nat));
                assert(envelope_text(c, t)[mid_at + 14] == '}');
            }
        }
        return None;
    }
    let t = d - 48;
    proof {
        let e = envelope_text(ctx@, t);
        lemma_envelope_ascii(ctx@, t);
        assert forall|i: int| 0 <= i < s@.len() implies s@[i] == e[i] by {
            assert(s@[i] as u8 == b@[i]);
            if i < 12 {
                assert(b@[i] == open_text()[i] as u8);
            } else if i < mid_at {
                assert(b@[12 + (i - 12)] == hex_of(ctx@)[i - 12] as u8);
            } else if i < mid_at + 13 {
                assert(b@[mid_at + (i - mid_at)] == "\",\"encoding\":"@[i - mid_at] as u8);
                assert("\",\"encoding\":"@[i - mid_at] == middle_text()[i - mid_at]);
            }
            assert(e[i] as u8 == b@[i]);
        }
        assert(s@ =~= e);
        assert forall|c: Seq<u8>, u: u8| u < 10 && #[trigger] envelope_text(c, u) == s@
            implies ctx@ == c && u == t by {
            assert(ctx@ =~= c.subrange(0, m as int));
            assert(c.subrange(0, m as int) =~= c);
            assert(envelope_text(c, u)[mid_at + 13] == digit_char(u as nat));
        }
    }
    Some((ctx, t))
}

impl CloudEnvironment {
    /// The envelope as JSON text.
    pub fn to_json(&self) -> (r: String)
        ensures
            r@ == envelope_text(self.context@, tag_of(self.encoding)),
    {
        proof { reveal_strlit("{\"context\":\""); }
        let mut s = String::from_str("{\"context\":\"");
        let mut i: usize = 0;
        while i < self.context.len()
            invariant
                i <= self.context@.len(),
                s@ == open_text() + hex_of(self.context@.subrange(0, i as int)),
            decreases self.context@.len() - i,
        {
            let x = self.context[i];
            s.append(hex_str(x / 16));
            s.append(hex_str(x % 16));
            proof {
                let c = self.context@;
                assert(hex_of(c.subrange(0, i + 1)) =~= hex_of(c.subrange(0, i as int)) + seq![hex_char((x / 16) as nat), hex_char((x % 16) as nat)]);
            }
            i = i + 1;
        }
        assert(self.context@.subrange(0, self.context@.len() as int) =~= self.context@);
        proof { reveal_strlit("\",\"encoding\":"); }
        s.append("\",\"encoding\":");
        s.append(digit_str(self.encoding.tag() as usize));
        proof { reveal_strlit("}"); }
        s.append("}");
        s
    }

    /// Reads an envelope. Fails with `Malformed` when the text is no
    /// envelope, and with `UnsupportedEncoding` when it names a codec tag
    /// that this build does not know.
    pub fn from_json(s: &str) -> (r: Result<CloudEnvironment, ContextError>)
        ensures
            r matches Ok(env) ==> s@ == envelope_text(env.context@, tag_of(env.encoding)),
            forall|c: Seq<u8>, e: Encoding| #[trigger] envelope_text(c, tag_of(e)) == s@
                ==> (r matches Ok(env) && env.context@ == c && env.encoding == e),
            r matches Err(ContextError::UnsupportedEncoding(t)) ==> t < 10 && encoding_of_tag(t) is None
                && exists|c: Seq<u8>| #[trigger] envelope_text(c, t) == s@,
            forall|c: Seq<u8>, t: u8| t < 10 && encoding_of_tag(t) is None && #[trigger] envelope_text(c, t) == s@
                ==> r == Err::<CloudEnvironment, ContextError>(ContextError::UnsupportedEncoding(t)),
            r == Err::<CloudEnvironment, ContextError>(ContextError::Malformed)
                ==> forall|c: Seq<u8>, t: u8| t < 10 ==> #[trigger] envelope_text(c, t) != s@,
            r is Err ==> r == Err::<CloudEnvironment, ContextError>(ContextError::Malformed)
                || r matches Err(ContextError::UnsupportedEncoding(_)),
    {
        match parse_envelope(s) {
            None => {
                proof {
                    assert forall|c: Seq<u8>, e: Encoding| #[trigger] envelope_text(c, tag_of(e)) == s@ implies false by {
                        assert(tag_of(e) < 10);
                    }
                }
                Err(ContextError::Malformed)
            },
            Some((context, t)) => {
                match Encoding::from_tag(t) {
                    Some(encoding) => {
                        proof {
                            assert forall|c: Seq<u8>, e: Encoding| #[trigger] envelope_text(c, tag_of(e)) == s@
                                implies context@ == c && encoding == e by {
                                assert(tag_of(e) < 10);
                                crate::encoding::lemma_tag_round_trip(e);
                            }
                        }
                        Ok(CloudEnvironment { context, encoding })
                    },
                    None => {
                        proof {
                            assert(envelope_text(context@, t) == s@);
                            assert forall|c: Seq<u8>, e: Encoding| #[trigger] envelope_text(c, tag_of(e)) == s@ implies false by {
                                assert(tag_of(e) < 10);
                                crate::encoding::lemma_tag_round_trip(e);
                            }
                        }
                        Err(ContextError::UnsupportedEncoding(t))
                    },
                }
            },
        }
    }
}

} // verus!
