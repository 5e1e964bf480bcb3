//! The canonical plaintext serialization of a store: a sequence of
//! records, each a labelled, length-prefixed name ("Key") and text
//! ("Text") in UTF-8. Encoding and parsing are verified inverses.
use vstd::prelude::*;
use vstd::bytes::lemma_auto_spec_u32_to_from_le_bytes;
use vstd::bytes::spec_u32_from_le_bytes;
use vstd::bytes::spec_u32_to_le_bytes;
use vstd::bytes::u32_from_le_bytes;
use vstd::bytes::u32_to_le_bytes;
use vstd::slice::slice_subrange;
use vstd::slice::slice_to_vec;
use vstd::string::StrSliceExecFns;
use vstd::string::StringSliceAdditionalSpecFns;
use vstd::utf8::decode_utf8;
use vstd::utf8::encode_utf8;
use vstd::utf8::encode_utf8_decode_utf8;
use vstd::utf8::encode_utf8_valid_utf8;
use vstd::utf8::valid_utf8;
use crate::PwmanError;
use crate::store::KvEntry;

verus! {

/// The bytes of the label "Key".
pub open spec fn spec_tag_key() -> Seq<u8> {
    seq!['K' as u8, 'e' as u8, 'y' as u8]
}

/// The bytes of the label "Text".
pub open spec fn spec_tag_text() -> Seq<u8> {
    seq!['T' as u8, 'e' as u8, 'x' as u8, 't' as u8]
}

/// A record can be framed: its name is non-empty and both fields fit
/// the four-byte length prefix.
pub open spec fn rec_encodable(r: (Seq<char>, Seq<char>)) -> bool {
    &&& r.0.len() > 0
    &&& encode_utf8(r.0).len() <= u32::MAX
    &&& encode_utf8(r.1).len() <= u32::MAX
}

pub open spec fn all_encodable(s: Seq<(Seq<char>, Seq<char>)>) -> bool {
    forall|i: int| 0 <= i < s.len() ==> rec_encodable(#[trigger] s[i])
}

/// One framed record.
pub open spec fn encode_rec(r: (Seq<char>, Seq<char>)) -> Seq<u8> {
    spec_tag_key() + spec_u32_to_le_bytes(encode_utf8(r.0).len() as u32) + encode_utf8(r.0)
        + spec_tag_text() + spec_u32_to_le_bytes(encode_utf8(r.1).len() as u32) + encode_utf8(r.1)
}

/// A framed record sequence.
pub open spec fn encode_recs(s: Seq<(Seq<char>, Seq<char>)>) -> Seq<u8>
    decreases s.len(),
{
    if s.len() == 0 {
        Seq::empty()
    } else {
        encode_rec(s.first()) + encode_recs(s.drop_first())
    }
}

/// The first record of a byte stream, with the number of bytes it
/// spans, or `None` when the stream does not start with a well-formed
/// record carrying a non-empty name.
pub open spec fn parse_rec(data: Seq<u8>) -> Option<((Seq<char>, Seq<char>), int)> {
    if data.len() < 15 {
        None
    } else if data.subrange(0, 3) != spec_tag_key() {
        None
    } else {
        let klen = spec_u32_from_le_bytes(data.subrange(3, 7)) as int;
        if data.len() < 15 + klen {
            None
        } else {
            let kb = data.subrange(7, 7 + klen);
            if klen == 0 || !valid_utf8(kb) {
                None
            } else if data.subrange(7 + klen, 11 + klen) != spec_tag_text() {
                None
            } else {
                let tlen = spec_u32_from_le_bytes(data.subrange(11 + klen, 15 + klen)) as int;
                if data.len() < 15 + klen + tlen {
                    None
                } else {
                    let tb = data.subrange(15 + klen, 15 + klen + tlen);
                    if !valid_utf8(tb) {
                        None
                    } else {
                        Some(((decode_utf8(kb), decode_utf8(tb)), 15 + klen + tlen))
                    }
                }
            }
        }
    }
}

/// All records of a byte stream, or `None` when it is not a well-formed
/// record sequence.
pub open spec fn parse_recs(data: Seq<u8>) -> Option<Seq<(Seq<char>, Seq<char>)>>
    decreases data.len(),
{
    if data.len() == 0 {
        Some(Seq::empty())
    } else {
        match parse_rec(data) {
            None => None,
            Some((r, n)) => if 15 <= n <= data.len() {
                match parse_recs(data.skip(n)) {
                    None => None,
                    Some(rest) => Some(seq![r] + rest),
                }
            } else {
                None
            },
        }
    }
}

/// Encoding a non-empty sequence of characters takes at least one byte.
pub proof fn lemma_encode_utf8_len(chars: Seq<char>)
    ensures
        encode_utf8(chars).len() >= chars.len(),
    decreases chars.len(),
{
    if chars.len() == 0 {
    } else {
        lemma_encode_utf8_len(chars.drop_first());
    }
}

/// Framing distributes over concatenation of record sequences.
pub proof fn lemma_encode_recs_concat(a: Seq<(Seq<char>, Seq<char>)>, b: Seq<(Seq<char>, Seq<char>)>)
    ensures
        encode_recs(a + b) == encode_recs(a) + encode_recs(b),
    decreases a.len(),
{
    if a.len() == 0 {
        assert(a + b =~= b);
        assert(encode_recs(a) + encode_recs(b) =~= encode_recs(b));
    } else {
        assert((a + b).first() == a.first());
        assert((a + b).drop_first() =~= a.drop_first() + b);
        lemma_encode_recs_concat(a.drop_first(), b);
        assert(encode_recs(a + b) =~= encode_recs(a) + encode_recs(b));
    }
}

/// Parsing the frame of a single encodable record yields that record and
/// consumes exactly the frame, whatever follows it.
proof fn lemma_parse_rec_of_encode(r: (Seq<char>, Seq<char>), rest: Seq<u8>)
    requires
        rec_encodable(r),
    ensures
        parse_rec(encode_rec(r) + rest) == Some((r, encode_rec(r).len() as int)),
        encode_rec(r).len() >= 16,
    decreases rest.len(),
{
    broadcast use encode_utf8_valid_utf8;
    broadcast use encode_utf8_decode_utf8;

    lemma_auto_spec_u32_to_from_le_bytes();
    let kb = encode_utf8(r.0);
    let tb = encode_utf8(r.1);
    let klen = kb.len() as int;
    let tlen = tb.len() as int;
    lemma_encode_utf8_len(r.0);
    let data = encode_rec(r) + rest;
    assert(encode_rec(r).len() == 15 + klen + tlen);
    assert(data.subrange(0, 3) =~= spec_tag_key());
    assert(data.subrange(3, 7) =~= spec_u32_to_le_bytes(klen as u32));
    assert(spec_u32_from_le_bytes(data.subrange(3, 7)) == klen as u32);
    assert(data.subrange(7, 7 + klen) =~= kb);
    assert(data.subrange(7 + klen, 11 + klen) =~= spec_tag_text());
    assert(data.subrange(11 + klen, 15 + klen) =~= spec_u32_to_le_bytes(tlen as u32));
    assert(spec_u32_from_le_bytes(data.subrange(11 + klen, 15 + klen)) == tlen as u32);
    assert(data.subrange(15 + klen, 15 + klen + tlen) =~= tb);
    assert(decode_utf8(kb) == r.0);
    assert(decode_utf8(tb) == r.1);
}

/// Round trip: parsing a framed record sequence yields it back exactly.
pub proof fn lemma_parse_encode(s: Seq<(Seq<char>, Seq<char>)>)
    requires
        all_encodable(s),
    ensures
        parse_recs(encode_recs(s)) == Some(s),
    decreases s.len(),
{
    if s.len() == 0 {
        assert(encode_recs(s).len() == 0);
        assert(parse_recs(encode_recs(s)) == Some(Seq::<(Seq<char>, Seq<char>)>::empty()));
        assert(s =~= Seq::<(Seq<char>, Seq<char>)>::empty());
    } else {
        let r = s.first();
        let e0 = encode_rec(r);
        let rest = encode_recs(s.drop_first());
        let data = encode_recs(s);
        lemma_parse_rec_of_encode(r, rest);
        assert(parse_rec(data) == Some((r, e0.len() as int)));
        assert(data.skip(e0.len() as int) =~= rest);
        assert(all_encodable(s.drop_first())) by {
            assert(forall|i: int|
                0 <= i < s.drop_first().len() ==> (#[trigger] s.drop_first()[i]) == s[i + 1]);
        }
        lemma_parse_encode(s.drop_first());
        assert(parse_recs(data) == Some(seq![r] + s.drop_first()));
        assert(seq![r] + s.drop_first() =~= s);
    }
}

/// Relies on `String::from_utf8`: it succeeds exactly on valid UTF-8 and
/// then returns the string whose UTF-8 encoding is the given bytes (the
/// conversion is the inverse of `String::into_bytes`).
#[verifier::external_body]
fn string_from_utf8(b: Vec<u8>) -> (r: Option<String>)
    ensures
        r is Some <==> valid_utf8(b@),
        r is Some ==> encode_utf8(r->0@) == b@,
{
    String::from_utf8(b).ok()
}

/// Frames all records, in the given order. Fails only when some field
/// is too long for the four-byte length prefix.
pub fn encode_records(entries: &Vec<KvEntry>) -> (r: Result<Vec<u8>, PwmanError>)
    requires
        forall|i: int| 0 <= i < entries@.len() ==> (#[trigger] entries@[i])@.0.len() > 0,
    ensures
        r is Ok <==> all_encodable(entries@.map_values(|e: KvEntry| e@)),
        r is Ok ==> r->Ok_0@ == encode_recs(entries@.map_values(|e: KvEntry| e@)),
        r is Err ==> r->Err_0 == PwmanError::TooLarge,
{
    let ghost recs = entries@.map_values(|e: KvEntry| e@);
    let mut out: Vec<u8> = Vec::new();
    let n = entries.len();
    let mut i: usize = 0;
    proof {
        assert(recs.take(0) =~= Seq::<(Seq<char>, Seq<char>)>::empty());
    }
    while i < n
        invariant
            i <= n,
            n == entries@.len(),
            forall|m: int| 0 <= m < entries@.len() ==> (#[trigger] entries@[m])@.0.len() > 0,
            recs == entries@.map_values(|e: KvEntry| e@),
            all_encodable(recs.take(i as int)),
            out@ == encode_recs(recs.take(i as int)),
        decreases n - i,
    {
        let mut kb = entries[i].key.as_str().as_bytes_vec();
        let mut tb = entries[i].value.as_str().as_bytes_vec();
        let klen = kb.len();
        let tlen = tb.len();
        if (klen as u64) > (u32::MAX as u64) || (tlen as u64) > (u32::MAX as u64) {
            return Err(PwmanError::TooLarge);
        }
        let ghost out0 = out@;
        out.push('K' as u8);
        out.push('e' as u8);
        out.push('y' as u8);
        let mut lb = u32_to_le_bytes(klen as u32);
        out.append(&mut lb);
        out.append(&mut kb);
        out.push('T' as u8);
        out.push('e' as u8);
        out.push('x' as u8);
        out.push('t' as u8);
        let mut lb2 = u32_to_le_bytes(tlen as u32);
        out.append(&mut lb2);
        out.append(&mut tb);
        proof {
            assert(rec_encodable(recs[i as int]));
            assert(out@ =~= out0 + encode_rec(recs[i as int]));
            assert(recs.take(i + 1) =~= recs.take(i as int) + seq![recs[i as int]]);
            lemma_encode_recs_concat(recs.take(i as int), seq![recs[i as int]]);
            assert(seq![recs[i as int]].drop_first() =~= Seq::<(Seq<char>, Seq<char>)>::empty());
            assert(encode_recs(Seq::<(Seq<char>, Seq<char>)>::empty()) =~= Seq::<u8>::empty());
            assert(encode_recs(seq![recs[i as int]]) =~= encode_rec(recs[i as int]));
        }
        i = i + 1;
    }
    proof {
        assert(recs.take(n as int) =~= recs);
    }
    Ok(out)
}

/// `parse_recs` applied behind an accumulated prefix.
spec fn parse_recs_from(
    pre: Seq<(Seq<char>, Seq<char>)>,
    data: Seq<u8>,
) -> Option<Seq<(Seq<char>, Seq<char>)>> {
    match parse_recs(data) {
        None => None,
        Some(rest) => Some(pre + rest),
    }
}

/// Parses a record stream in full; the store is only replaced by the
/// caller once the whole stream has parsed. Fails exactly on a stream
/// that is not a well-formed record sequence.
#[verifier::loop_isolation(false)]
#[verifier::rlimit(100)]
pub fn parse_records(data: &[u8]) -> (r: Result<Vec<KvEntry>, PwmanError>)
    ensures
        parse_recs(data@) is Some <==> r is Ok,
        r is Ok ==> parse_recs(data@) == Some(r->Ok_0@.map_values(|e: KvEntry| e@)),
        r is Err ==> r->Err_0 == PwmanError::Format,
        r is Ok ==> forall|i: int|
            0 <= i < r->Ok_0@.len() ==> (#[trigger] r->Ok_0@[i])@.0.len() > 0,
{
    let len = data.len();
    let mut pos: usize = 0;
    let mut acc: Vec<KvEntry> = Vec::new();
    proof {
        assert(data@.skip(0) =~= data@);
        assert(acc@.map_values(|e: KvEntry| e@) =~= Seq::<(Seq<char>, Seq<char>)>::empty());
        if parse_recs(data@) is Some {
            assert(Seq::<(Seq<char>, Seq<char>)>::empty() + parse_recs(data@)->0 =~= parse_recs(
                data@,
            )->0);
        }
    }
    while pos < len
        invariant
            pos <= len,
            parse_recs(data@) == parse_recs_from(
                acc@.map_values(|e: KvEntry| e@),
                data@.skip(pos as int),
            ),
            forall|i: int| 0 <= i < acc@.len() ==> (#[trigger] acc@[i])@.0.len() > 0,
        decreases len - pos,
    {
        let ghost tail = data@.skip(pos as int);
        let ghost accv = acc@.map_values(|e: KvEntry| e@);
        let rem = len - pos;
        if rem < 15 {
            return Err(PwmanError::Format);
        }
        if !(data[pos] == 'K' as u8 && data[pos + 1] == 'e' as u8 && data[pos + 2] == 'y' as u8) {
            proof {
                assert(tail.subrange(0, 3) != spec_tag_key()) by {
                    assert(tail[0] == data@[pos as int]);
                    assert(tail[1] == data@[pos as int + 1]);
                    assert(tail[2] == data@[pos as int + 2]);
                    if tail.subrange(0, 3) == spec_tag_key() {
                        assert(tail.subrange(0, 3)[0] == 'K' as u8);
                        assert(tail.subrange(0, 3)[1] == 'e' as u8);
                        assert(tail.subrange(0, 3)[2] == 'y' as u8);
                    }
                }
            }
            return Err(PwmanError::Format);
        }
        proof {
            assert(tail.subrange(0, 3) =~= spec_tag_key());
        }
        let klen32 = u32_from_le_bytes(slice_subrange(data, pos + 3, pos + 7));
        proof {
            assert(data@.subrange(pos as int + 3, pos as int + 7) =~= tail.subrange(3, 7));
        }
        let klen = klen32 as usize;
        if ((rem - 15) as u64) < (klen as u64) {
            return Err(PwmanError::Format);
        }
        if klen32 == 0 {
            return Err(PwmanError::Format);
        }
        let kbytes = slice_to_vec(slice_subrange(data, pos + 7, pos + 7 + klen));
        proof {
            assert(kbytes@ =~= tail.subrange(7, 7 + klen as int));
        }
        let key = match string_from_utf8(kbytes) {
            None => {
                return Err(PwmanError::Format);
            },
            Some(s) => s,
        };
        let tpos = pos + 7 + klen;
        if !(data[tpos] == 'T' as u8 && data[tpos + 1] == 'e' as u8 && data[tpos + 2] == 'x' as u8
            && data[tpos + 3] == 't' as u8) {
            proof {
                let kl = klen as int;
                assert(tail.subrange(7 + kl, 11 + kl) != spec_tag_text()) by {
                    assert(tail[7 + kl] == data@[tpos as int]);
                    assert(tail[8 + kl] == data@[tpos as int + 1]);
                    assert(tail[9 + kl] == data@[tpos as int + 2]);
                    assert(tail[10 + kl] == data@[tpos as int + 3]);
                    if tail.subrange(7 + kl, 11 + kl) == spec_tag_text() {
                        assert(tail.subrange(7 + kl, 11 + kl)[0] == 'T' as u8);
                        assert(tail.subrange(7 + kl, 11 + kl)[1] == 'e' as u8);
                        assert(tail.subrange(7 + kl, 11 + kl)[2] == 'x' as u8);
                        assert(tail.subrange(7 + kl, 11 + kl)[3] == 't' as u8);
                    }
                }
            }
            return Err(PwmanError::Format);
        }
        proof {
            assert(tail.subrange(7 + klen as int, 11 + klen as int) =~= spec_tag_text());
        }
        let tlen32 = u32_from_le_bytes(slice_subrange(data, tpos + 4, tpos + 8));
        proof {
            assert(data@.subrange(tpos as int + 4, tpos as int + 8) =~= tail.subrange(
                11 + klen as int,
                15 + klen as int,
            ));
        }
        let tlen = tlen32 as usize;
        if ((rem - 15 - klen) as u64) < (tlen as u64) {
            return Err(PwmanError::Format);
        }
        let tbytes = slice_to_vec(slice_subrange(data, tpos + 8, tpos + 8 + tlen));
        proof {
            assert(tbytes@ =~= tail.subrange(15 + klen as int, 15 + klen as int + tlen as int));
        }
        let text = match string_from_utf8(tbytes) {
            None => {
                return Err(PwmanError::Format);
            },
            Some(s) => s,
        };
        let ghost rec = (key@, text@);
        let ghost consumed = 15 + klen as int + tlen as int;
        proof {
            broadcast use encode_utf8_decode_utf8;

            assert(parse_rec(tail) == Some((rec, consumed)));
            assert(key@.len() > 0) by {
                if key@.len() == 0 {
                    assert(encode_utf8(key@) =~= Seq::<u8>::empty());
                }
            }
            assert(tail.skip(consumed) =~= data@.skip(pos as int + consumed));
            assert(accv + (seq![rec] + parse_recs(tail.skip(consumed))->0) =~= (accv + seq![rec])
                + parse_recs(tail.skip(consumed))->0);
            assert((acc@ + seq![KvEntry { key, value: text }]).map_values(|e: KvEntry| e@) =~= accv
                + seq![rec]);
        }
        acc.push(KvEntry { key, value: text });
        pos = tpos + 8 + tlen;
    }
    proof {
        assert(data@.skip(pos as int) =~= Seq::<u8>::empty());
        assert(parse_recs(data@.skip(pos as int)) == Some(Seq::<(Seq<char>, Seq<char>)>::empty()));
        assert(acc@.map_values(|e: KvEntry| e@) + Seq::<(Seq<char>, Seq<char>)>::empty()
            =~= acc@.map_values(|e: KvEntry| e@));
    }
    Ok(acc)
}

} // verus!
