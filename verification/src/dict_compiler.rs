use vstd::prelude::*;

use vstd::bytes::{
    lemma_auto_spec_u16_to_from_le_bytes, lemma_auto_spec_u32_to_from_le_bytes,
    lemma_auto_spec_u64_to_from_le_bytes, spec_u16_from_le_bytes, spec_u16_to_le_bytes,
    spec_u32_from_le_bytes, spec_u32_to_le_bytes, spec_u64_from_le_bytes, spec_u64_to_le_bytes,
    u16_from_le_bytes, u16_to_le_bytes, u32_from_le_bytes, u32_to_le_bytes, u64_from_le_bytes,
    u64_to_le_bytes,
};
use vstd::slice::{slice_subrange, slice_to_vec};
use vstd::string::StringSliceAdditionalSpecFns;
use vstd::utf8::{
    decode_utf8, encode_utf8, encode_utf8_decode_utf8, encode_utf8_valid_utf8, valid_utf8,
};

use crate::dict::{build_trie_from_entries, cand_views, entries_under, entry_view, DictCandidate};
use crate::trie::Trie;

verus! {

/// The file signature of a compiled dictionary: `ZIRC`.
pub open spec fn magic() -> Seq<u8> {
    seq![0x5Au8, 0x49u8, 0x52u8, 0x43u8]
}

/// The format version of a compiled dictionary.
pub const VERSION: u8 = 1;

/// Length of the header: signature, version, checksum, entry count.
pub const HEADER_LEN: usize = 17;

/// One entry: key length (u16 LE), key bytes, text length (u16 LE), text bytes, weight (u32 LE).
pub open spec fn encode_entry(e: (Seq<char>, (Seq<char>, u32))) -> Seq<u8> {
    let k = encode_utf8(e.0);
    let t = encode_utf8(e.1.0);
    spec_u16_to_le_bytes(k.len() as u16) + k + spec_u16_to_le_bytes(t.len() as u16) + t
        + spec_u32_to_le_bytes(e.1.1)
}

pub open spec fn encode_entries(es: Seq<(Seq<char>, (Seq<char>, u32))>) -> Seq<u8>
    decreases es.len(),
{
    if es.len() == 0 {
        Seq::empty()
    } else {
        encode_entry(es[0]) + encode_entries(es.drop_first())
    }
}

/// The bytes of a compiled dictionary holding `es`, stamped with `checksum`.
pub open spec fn cache_image(es: Seq<(Seq<char>, (Seq<char>, u32))>, checksum: u64) -> Seq<u8> {
    magic() + seq![VERSION] + spec_u64_to_le_bytes(checksum) + spec_u32_to_le_bytes(es.len() as u32)
        + encode_entries(es)
}

proof fn lemma_encode_entries_push(es: Seq<(Seq<char>, (Seq<char>, u32))>, e: (Seq<char>, (Seq<char>, u32)))
    ensures
        encode_entries(es.push(e)) == encode_entries(es) + encode_entry(e),
    decreases es.len(),
{
    if es.len() == 0 {
        assert(es.push(e).drop_first() =~= Seq::<(Seq<char>, (Seq<char>, u32))>::empty());
        assert(es.push(e)[0] == e);
        assert(encode_entries(Seq::<(Seq<char>, (Seq<char>, u32))>::empty()) == Seq::<u8>::empty());
        assert(encode_entries(es.push(e)) =~= encode_entry(e));
    } else {
        lemma_encode_entries_push(es.drop_first(), e);
        assert(es.push(e).drop_first() =~= es.drop_first().push(e));
        assert(encode_entries(es.push(e)) =~= encode_entries(es) + encode_entry(e));
    }
}

fn append_bytes(buf: &mut Vec<u8>, src: &[u8])
    ensures
        final(buf)@ == old(buf)@ + src@,
{
    let mut i: usize = 0;
    while i < src.len()
        invariant
            i <= src@.len(),
            buf@ == old(buf)@ + src@.take(i as int),
        decreases src.len() - i,
    {
        buf.push(src[i]);
        i = i + 1;
        assert(buf@ =~= old(buf)@ + src@.take(i as int));
    }
    assert(src@.take(i as int) =~= src@);
}

/// The bytes of a compiled dictionary holding `entries`, stamped with `checksum`
/// (lengths and the count are stored truncated to their field widths).
pub fn compile_to_cache(entries: &Vec<(String, DictCandidate)>, checksum: u64) -> (buf: Vec<u8>)
    ensures
        buf@ == cache_image(entries@.map_values(|e: (String, DictCandidate)| entry_view(e)), checksum),
{
    let ghost ev = entries@.map_values(|e: (String, DictCandidate)| entry_view(e));
    let mut buf: Vec<u8> = Vec::new();
    buf.push(0x5A);
    buf.push(0x49);
    buf.push(0x52);
    buf.push(0x43);
    buf.push(VERSION);
    let cs = u64_to_le_bytes(checksum);
    append_bytes(&mut buf, cs.as_slice());
    let count = u32_to_le_bytes(entries.len() as u32);
    append_bytes(&mut buf, count.as_slice());
    let ghost header = buf@;
    assert(header =~= magic() + seq![VERSION] + spec_u64_to_le_bytes(checksum) + spec_u32_to_le_bytes(
        ev.len() as u32,
    ));
    let mut i: usize = 0;
    while i < entries.len()
        invariant
            i <= entries@.len(),
            ev == entries@.map_values(|e: (String, DictCandidate)| entry_view(e)),
            buf@ == header + encode_entries(ev.take(i as int)),
        decreases entries.len() - i,
    {
        let key = entries[i].0.as_str().as_bytes();
        let text = entries[i].1.text.as_str().as_bytes();
        let ghost before = buf@;
        let kl = u16_to_le_bytes(key.len() as u16);
        append_bytes(&mut buf, kl.as_slice());
        append_bytes(&mut buf, key);
        let tl = u16_to_le_bytes(text.len() as u16);
        append_bytes(&mut buf, tl.as_slice());
        append_bytes(&mut buf, text);
        let w = u32_to_le_bytes(entries[i].1.weight);
        append_bytes(&mut buf, w.as_slice());
        proof {
            lemma_encode_entries_push(ev.take(i as int), ev[i as int]);
            assert(ev.take(i + 1) =~= ev.take(i as int).push(ev[i as int]));
            assert(buf@ =~= before + encode_entry(ev[i as int]));
        }
        i = i + 1;
    }
    assert(ev.take(i as int) =~= ev);
    buf
}

/// One raw entry read at `pos`: (key bytes, text bytes, weight) and the position after it.
pub open spec fn parse_entry(data: Seq<u8>, pos: int) -> Option<((Seq<u8>, Seq<u8>, u32), int)> {
    if pos + 2 > data.len() {
        None
    } else {
        let kl = spec_u16_from_le_bytes(data.subrange(pos, pos + 2)) as int;
        let p1 = pos + 2;
        if p1 + kl > data.len() {
            None
        } else {
            let key = data.subrange(p1, p1 + kl);
            let p2 = p1 + kl;
            if p2 + 2 > data.len() {
                None
            } else {
                let tl = spec_u16_from_le_bytes(data.subrange(p2, p2 + 2)) as int;
                let p3 = p2 + 2;
                if p3 + tl > data.len() {
                    None
                } else {
                    let text = data.subrange(p3, p3 + tl);
                    let p4 = p3 + tl;
                    if p4 + 4 > data.len() {
                        None
                    } else {
                        Some(((key, text, spec_u32_from_le_bytes(data.subrange(p4, p4 + 4))), p4 + 4))
                    }
                }
            }
        }
    }
}

/// `count` entries read from `pos` on, each with UTF-8 key and text, decoded.
pub open spec fn parse_entries_from(data: Seq<u8>, pos: int, count: nat) -> Option<
    Seq<(Seq<char>, (Seq<char>, u32))>,
>
    decreases count,
{
    if count == 0 {
        Some(Seq::empty())
    } else {
        match parse_entry(data, pos) {
            None => None,
            Some((e, next)) => if !valid_utf8(e.0) || !valid_utf8(e.1) {
                None
            } else {
                match parse_entries_from(data, next, (count - 1) as nat) {
                    Some(rest) => Some(seq![(decode_utf8(e.0), (decode_utf8(e.1), e.2))] + rest),
                    None => None,
                }
            },
        }
    }
}

/// The entries of a compiled dictionary, or `None` when it is too short, has
/// another signature or version, another checksum, or is cut or malformed.
pub open spec fn decode_cache(data: Seq<u8>, expected_checksum: u64) -> Option<Seq<(Seq<char>, (Seq<char>, u32))>> {
    if data.len() < 17 {
        None
    } else if data.take(4) != magic() || data[4] != VERSION {
        None
    } else if spec_u64_from_le_bytes(data.subrange(5, 13)) != expected_checksum {
        None
    } else {
        parse_entries_from(data, 17, spec_u32_from_le_bytes(data.subrange(13, 17)) as nat)
    }
}

pub open spec fn prepend_to(done: Seq<(Seq<char>, (Seq<char>, u32))>, rest: Option<Seq<(Seq<char>, (Seq<char>, u32))>>) -> Option<
    Seq<(Seq<char>, (Seq<char>, u32))>,
> {
    match rest {
        Some(r) => Some(done + r),
        None => None,
    }
}

/// `String::from_utf8`: `Some` exactly when the bytes are UTF-8, with the characters they encode.
#[verifier::external_body]
fn utf8_string(bytes: Vec<u8>) -> (r: Option<String>)
    ensures
        r is Some <==> valid_utf8(bytes@),
        r matches Some(s) ==> s@ == decode_utf8(bytes@),
{
    match String::from_utf8(bytes) {
        Ok(s) => Some(s),
        Err(_) => None,
    }
}

/// Reads the entries of a compiled dictionary (see `decode_cache`).
pub fn decode_cache_entries(data: &[u8], expected_checksum: u64) -> (r: Option<Vec<(String, DictCandidate)>>)
    ensures
        match decode_cache(data@, expected_checksum) {
            Some(es) => r matches Some(v) && v@.map_values(|e: (String, DictCandidate)| entry_view(e)) == es,
            None => r is None,
        },
{
    let ghost d = data@;
    if data.len() < HEADER_LEN {
        return None;
    }
    if !(data[0] == 0x5A && data[1] == 0x49 && data[2] == 0x52 && data[3] == 0x43) || data[4] != VERSION {
        proof {
            if d.take(4) == magic() {
                assert(d.take(4)[0] == 0x5A && d.take(4)[1] == 0x49 && d.take(4)[2] == 0x52 && d.take(4)[3] == 0x43);
            }
        }
        return None;
    }
    assert(d.take(4) =~= magic());
    let stored = u64_from_le_bytes(slice_subrange(data, 5, 13));
    if stored != expected_checksum {
        return None;
    }
    let count = u32_from_le_bytes(slice_subrange(data, 13, 17)) as usize;
    let ghost full = parse_entries_from(d, 17, count as nat);
    let mut out: Vec<(String, DictCandidate)> = Vec::new();
    let mut pos: usize = HEADER_LEN;
    let mut i: usize = 0;
    while i < count
        invariant
            d == data@,
            i <= count,
            pos <= data@.len(),
            full == parse_entries_from(d, 17, count as nat),
            decode_cache(d, expected_checksum) == full,
            full == prepend_to(
                out@.map_values(|e: (String, DictCandidate)| entry_view(e)),
                parse_entries_from(d, pos as int, (count - i) as nat),
            ),
        decreases count - i,
    {
        let ghost done = out@.map_values(|e: (String, DictCandidate)| entry_view(e));
        let n = data.len();
        if n - pos < 2 {
            assert(parse_entry(d, pos as int) is None);
            return None;
        }
        let kl = u16_from_le_bytes(slice_subrange(data, pos, pos + 2)) as usize;
        let p1 = pos + 2;
        if n - p1 < kl {
            assert(parse_entry(d, pos as int) is None);
            return None;
        }
        let p2 = p1 + kl;
        if n - p2 < 2 {
            return None;
        }
        let tl = u16_from_le_bytes(slice_subrange(data, p2, p2 + 2)) as usize;
        let p3 = p2 + 2;
        if n - p3 < tl {
            return None;
        }
        let p4 = p3 + tl;
        if n - p4 < 4 {
            return None;
        }
        let weight = u32_from_le_bytes(slice_subrange(data, p4, p4 + 4));
        let key = match utf8_string(slice_to_vec(slice_subrange(data, p1, p2))) {
            Some(s) => s,
            None => {
                return None;
            },
        };
        let text = match utf8_string(slice_to_vec(slice_subrange(data, p3, p4))) {
            Some(s) => s,
            None => {
                return None;
            },
        };
        let ghost e = (key@, (text@, weight));
        out.push((key, DictCandidate { text, weight }));
        proof {
            assert(out@.map_values(|e: (String, DictCandidate)| entry_view(e)) =~= done.push(e));
            let rest = parse_entries_from(d, (p4 + 4) as int, (count - i - 1) as nat);
            assert(parse_entries_from(d, pos as int, (count - i) as nat) == match rest {
                Some(r) => Some(seq![e] + r),
                None => None,
            });
            match rest {
                Some(r) => {
                    assert(done.push(e) + r =~= done + (seq![e] + r));
                },
                None => {},
            }
        }
        pos = p4 + 4;
        i = i + 1;
    }
    assert(out@.map_values(|e: (String, DictCandidate)| entry_view(e)) + Seq::<(Seq<char>, (Seq<char>, u32))>::empty()
        =~= out@.map_values(|e: (String, DictCandidate)| entry_view(e)));
    Some(out)
}

/// The trie held by a compiled dictionary (see `decode_cache`).
pub fn load_from_cache(data: &[u8], expected_checksum: u64) -> (r: Option<Trie<DictCandidate>>)
    ensures
        match decode_cache(data@, expected_checksum) {
            Some(es) => r matches Some(t) && t.wf() && forall|k: Seq<u8>|
                #[trigger] cand_views(t.entries_at(k)) == entries_under(es, k),
            None => r is None,
        },
{
    match decode_cache_entries(data, expected_checksum) {
        Some(entries) => {
            let t = build_trie_from_entries(&entries);
            Some(t)
        },
        None => None,
    }
}

/// Every key and text fits a u16 length field.
pub open spec fn fits_cache(es: Seq<(Seq<char>, (Seq<char>, u32))>) -> bool {
    &&& es.len() <= u32::MAX
    &&& forall|i: int|
        0 <= i < es.len() ==> encode_utf8((#[trigger] es[i]).0).len() <= u16::MAX && encode_utf8(es[i].1.0).len()
            <= u16::MAX
}

proof fn lemma_parse_encoded(data: Seq<u8>, pos: int, es: Seq<(Seq<char>, (Seq<char>, u32))>)
    requires
        fits_cache(es),
        0 <= pos,
        pos + encode_entries(es).len() <= data.len(),
        data.subrange(pos, pos + encode_entries(es).len()) == encode_entries(es),
    ensures
        parse_entries_from(data, pos, es.len()) == Some(es),
    decreases es.len(),
{
    broadcast use encode_utf8_decode_utf8, encode_utf8_valid_utf8;

    if es.len() > 0 {
        lemma_auto_spec_u16_to_from_le_bytes();
        lemma_auto_spec_u32_to_from_le_bytes();
        let e = es[0];
        let rest = es.drop_first();
        let enc = encode_entries(es);
        let one = encode_entry(e);
        assert(enc == one + encode_entries(rest));
        let k = encode_utf8(e.0);
        let t = encode_utf8(e.1.0);
        let kl = k.len() as int;
        let tl = t.len() as int;
        assert(spec_u16_to_le_bytes(k.len() as u16).len() == 2);
        assert(spec_u16_to_le_bytes(t.len() as u16).len() == 2);
        assert(spec_u32_to_le_bytes(e.1.1).len() == 4);
        assert(one.len() == 2 + kl + 2 + tl + 4);
        let p1 = pos + 2;
        let p2 = p1 + kl;
        let p3 = p2 + 2;
        let p4 = p3 + tl;
        let a = spec_u16_to_le_bytes(k.len() as u16);
        let b = spec_u16_to_le_bytes(t.len() as u16);
        let c = spec_u32_to_le_bytes(e.1.1);
        assert(one == a + k + b + t + c);
        assert forall|j: int| 0 <= j < enc.len() implies data[pos + j] == #[trigger] enc[j] by {
            assert(data.subrange(pos, pos + enc.len())[j] == data[pos + j]);
        }
        assert forall|j: int| 0 <= j < one.len() implies #[trigger] enc[j] == one[j] by {}
        assert(data.subrange(pos, pos + 2) =~= a);
        assert((k.len() as u16) as int == kl);
        assert(data.subrange(p1, p2) =~= k) by {
            assert forall|j: int| 0 <= j < kl implies #[trigger] data.subrange(p1, p2)[j] == k[j] by {
                assert(one[2 + j] == k[j]);
                assert(enc[2 + j] == one[2 + j]);
            }
        }
        assert(data.subrange(p2, p2 + 2) =~= b) by {
            assert forall|j: int| 0 <= j < 2 implies #[trigger] data.subrange(p2, p2 + 2)[j] == b[j] by {
                assert(one[2 + kl + j] == b[j]);
                assert(enc[2 + kl + j] == one[2 + kl + j]);
            }
        }
        assert((t.len() as u16) as int == tl);
        assert(data.subrange(p3, p4) =~= t) by {
            assert forall|j: int| 0 <= j < tl implies #[trigger] data.subrange(p3, p4)[j] == t[j] by {
                assert(one[4 + kl + j] == t[j]);
                assert(enc[4 + kl + j] == one[4 + kl + j]);
            }
        }
        assert(data.subrange(p4, p4 + 4) =~= c) by {
            assert forall|j: int| 0 <= j < 4 implies #[trigger] data.subrange(p4, p4 + 4)[j] == c[j] by {
                assert(one[4 + kl + tl + j] == c[j]);
                assert(enc[4 + kl + tl + j] == one[4 + kl + tl + j]);
            }
        }
        assert(parse_entry(data, pos) == Some(((k, t, e.1.1), p4 + 4)));
        assert(fits_cache(rest)) by {
            assert forall|i: int| 0 <= i < rest.len() implies encode_utf8((#[trigger] rest[i]).0).len() <= u16::MAX
                && encode_utf8(rest[i].1.0).len() <= u16::MAX by {
                assert(rest[i] == es[i + 1]);
            }
        }
        let er = encode_entries(rest);
        assert(data.subrange(p4 + 4, p4 + 4 + er.len()) =~= er) by {
            assert forall|j: int| 0 <= j < er.len() implies #[trigger] data.subrange(p4 + 4, p4 + 4 + er.len())[j] == er[j] by {
                assert(enc[one.len() + j] == er[j]);
            }
        }
        lemma_parse_encoded(data, p4 + 4, rest);
        assert(seq![(decode_utf8(k), (decode_utf8(t), e.1.1))] + rest =~= es);
    } else {
        assert(es =~= Seq::<(Seq<char>, (Seq<char>, u32))>::empty());
    }
}

/// A compiled dictionary reads back as the entries it was compiled from, when
/// every key and text fits its u16 length field and the count fits a u32.
pub proof fn lemma_cache_round_trip(es: Seq<(Seq<char>, (Seq<char>, u32))>, checksum: u64)
    requires
        fits_cache(es),
    ensures
        decode_cache(cache_image(es, checksum), checksum) == Some(es),
{
    lemma_auto_spec_u32_to_from_le_bytes();
    lemma_auto_spec_u64_to_from_le_bytes();
    let img = cache_image(es, checksum);
    let header = magic() + seq![VERSION] + spec_u64_to_le_bytes(checksum) + spec_u32_to_le_bytes(
        es.len() as u32,
    );
    assert(spec_u64_to_le_bytes(checksum).len() == 8);
    assert(spec_u32_to_le_bytes(es.len() as u32).len() == 4);
    assert(header.len() == 17);
    assert(img == header + encode_entries(es));
    assert(img.take(4) =~= magic());
    assert(img[4] == VERSION);
    assert(img.subrange(5, 13) =~= spec_u64_to_le_bytes(checksum));
    assert(img.subrange(13, 17) =~= spec_u32_to_le_bytes(es.len() as u32));
    assert(img.subrange(17, 17 + encode_entries(es).len() as int) =~= encode_entries(es));
    lemma_parse_encoded(img, 17, es);
}

/// A compiled dictionary is never read back under another checksum: once its
/// sources change, it is refused.
pub proof fn lemma_cache_stale(es: Seq<(Seq<char>, (Seq<char>, u32))>, checksum: u64, other: u64)
    requires
        checksum != other,
    ensures
        decode_cache(cache_image(es, checksum), other) is None,
{
    lemma_auto_spec_u64_to_from_le_bytes();
    lemma_auto_spec_u32_to_from_le_bytes();
    let img = cache_image(es, checksum);
    assert(spec_u64_to_le_bytes(checksum).len() == 8);
    assert(spec_u32_to_le_bytes(es.len() as u32).len() == 4);
    if img.len() >= 17 && img.take(4) == magic() && img[4] == VERSION {
        assert(img.subrange(5, 13) =~= spec_u64_to_le_bytes(checksum));
    }
}

/// A dictionary source file as seen on disk: its path and, when its metadata
/// could be read, its size and (when known) its modification time in seconds
/// since the Unix epoch.
pub struct SourceStamp {
    pub path: String,
    pub metadata: Option<(u64, Option<u64>)>,
}

pub const FNV_OFFSET: u64 = 0xcbf29ce484222325;

pub const FNV_PRIME: u64 = 0x100000001b3;

/// One FNV-1a step.
pub open spec fn fnv_step(h: u64, b: u8) -> u64 {
    (((h ^ (b as u64)) as nat * FNV_PRIME as nat) % 0x1_0000_0000_0000_0000) as u64
}

/// FNV-1a over `bytes`, starting from `h`.
pub open spec fn fnv_bytes(h: u64, bytes: Seq<u8>) -> u64
    decreases bytes.len(),
{
    if bytes.len() == 0 {
        h
    } else {
        fnv_step(fnv_bytes(h, bytes.drop_last()), bytes.last())
    }
}

/// The bytes a source contributes: its path, then its size and modification
/// time (little-endian) when known.
pub open spec fn stamp_bytes(s: SourceStamp) -> Seq<u8> {
    encode_utf8(s.path@) + match s.metadata {
        Some((size, modified)) => spec_u64_to_le_bytes(size) + match modified {
            Some(t) => spec_u64_to_le_bytes(t),
            None => Seq::empty(),
        },
        None => Seq::empty(),
    }
}

pub open spec fn stamps_bytes(stamps: Seq<SourceStamp>) -> Seq<u8>
    decreases stamps.len(),
{
    if stamps.len() == 0 {
        Seq::empty()
    } else {
        stamps_bytes(stamps.drop_last()) + stamp_bytes(stamps.last())
    }
}

proof fn lemma_fnv_concat(h: u64, a: Seq<u8>, b: Seq<u8>)
    ensures
        fnv_bytes(h, a + b) == fnv_bytes(fnv_bytes(h, a), b),
    decreases b.len(),
{
    if b.len() == 0 {
        assert(a + b =~= a);
    } else {
        lemma_fnv_concat(h, a, b.drop_last());
        assert((a + b).drop_last() =~= a + b.drop_last());
    }
}

/// Runs FNV-1a from `hash` over `bytes`.
fn fnv_extend(hash: u64, bytes: &[u8]) -> (r: u64)
    ensures
        r == fnv_bytes(hash, bytes@),
{
    let mut h = hash;
    let mut i: usize = 0;
    while i < bytes.len()
        invariant
            i <= bytes@.len(),
            h == fnv_bytes(hash, bytes@.take(i as int)),
        decreases bytes.len() - i,
    {
        assert(bytes@.take(i + 1).drop_last() =~= bytes@.take(i as int));
        h = (h ^ bytes[i] as u64).wrapping_mul(FNV_PRIME);
        i = i + 1;
    }
    assert(bytes@.take(i as int) =~= bytes@);
    h
}

/// A checksum of the sources (FNV-1a over every path, size and modification
/// time), to tell whether a compiled dictionary is still current.
pub fn compute_source_checksum(sources: &Vec<SourceStamp>) -> (hash: u64)
    ensures
        hash == fnv_bytes(FNV_OFFSET, stamps_bytes(sources@)),
{
    let mut hash = FNV_OFFSET;
    let mut i: usize = 0;
    while i < sources.len()
        invariant
            i <= sources@.len(),
            hash == fnv_bytes(FNV_OFFSET, stamps_bytes(sources@.take(i as int))),
        decreases sources.len() - i,
    {
        let ghost before = stamps_bytes(sources@.take(i as int));
        let src = &sources[i];
        let pb = src.path.as_str().as_bytes();
        hash = fnv_extend(hash, pb);
        proof {
            lemma_fnv_concat(FNV_OFFSET, before, pb@);
        }
        let ghost mut done = before + pb@;
        match src.metadata {
            Some((size, modified)) => {
                let sb = u64_to_le_bytes(size);
                hash = fnv_extend(hash, sb.as_slice());
                proof {
                    lemma_fnv_concat(FNV_OFFSET, done, sb@);
                    done = done + sb@;
                }
                match modified {
                    Some(t) => {
                        let tb = u64_to_le_bytes(t);
                        hash = fnv_extend(hash, tb.as_slice());
                        proof {
                            lemma_fnv_concat(FNV_OFFSET, done, tb@);
                            done = done + tb@;
                        }
                    },
                    None => {},
                }
            },
            None => {},
        }
        proof {
            assert(sources@.take(i + 1).drop_last() =~= sources@.take(i as int));
            assert(done =~= stamps_bytes(sources@.take(i + 1)));
        }
        i = i + 1;
    }
    assert(sources@.take(i as int) =~= sources@);
    hash
}

} // verus!
