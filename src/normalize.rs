use vstd::prelude::*;
use crate::text::find_byte;
use vstd::utf8::{
    decode_utf8, encode_scalar, encode_utf8, encode_utf8_decode_utf8, encode_utf8_valid_utf8,
    valid_utf8,
};

verus! {

/// `s` with every carriage return that directly precedes a line feed removed.
pub open spec fn crlf_collapsed(s: Seq<char>) -> Seq<char>
    decreases s.len(),
{
    if s.len() == 0 {
        s
    } else if s.len() >= 2 && s[0] == '\r' && s[1] == '\n' {
        crlf_collapsed(s.drop_first())
    } else {
        seq![s[0]] + crlf_collapsed(s.drop_first())
    }
}

/// The same on bytes: every 13 that directly precedes a 10 removed.
pub open spec fn crlf_collapsed_bytes(b: Seq<u8>) -> Seq<u8>
    decreases b.len(),
{
    if b.len() == 0 {
        b
    } else if b.len() >= 2 && b[0] == 13u8 && b[1] == 10u8 {
        crlf_collapsed_bytes(b.drop_first())
    } else {
        seq![b[0]] + crlf_collapsed_bytes(b.drop_first())
    }
}

/// `needle` occurs in `h` starting at `i`.
pub open spec fn occurs_at(h: Seq<u8>, needle: Seq<u8>, i: int) -> bool {
    0 <= i && i + needle.len() <= h.len() && h.subrange(i, i + needle.len()) == needle
}

/// Relies on memchr::memmem::find: the position of the first occurrence of a byte
/// string.
#[verifier::external_body]
fn find_bytes(haystack: &[u8], needle: &[u8]) -> (r: Option<usize>)
    ensures
        match r {
            Some(i) => occurs_at(haystack@, needle@, i as int) && forall|j: int|
                0 <= j < i ==> !occurs_at(haystack@, needle@, j),
            None => forall|j: int| 0 <= j ==> !occurs_at(haystack@, needle@, j),
        },
{
    memchr::memmem::find(haystack, needle)
}

/// Relies on std's String::from_utf8: valid UTF-8 is accepted and decoded.
#[verifier::external_body]
fn string_from_utf8(b: Vec<u8>) -> (r: String)
    requires
        valid_utf8(b@),
    ensures
        r@ == decode_utf8(b@),
{
    String::from_utf8(b).unwrap()
}

proof fn lemma_scalar_bytes(c: char)
    ensures
        encode_scalar(c as u32).len() >= 1,
        (c as u32) <= 0x7F ==> encode_scalar(c as u32) == seq![(c as u32) as u8],
        (c as u32) > 0x7F ==> forall|k: int|
            0 <= k < encode_scalar(c as u32).len() ==> #[trigger] encode_scalar(c as u32)[k] >= 0x80,
{
    let s = c as u32;
    vstd::utf8::char_is_scalar(c);
    if s <= 0x7F {
        assert((s & 0x7F) as u8 == s as u8) by (bit_vector)
            requires
                s <= 0x7F,
        ;
        assert(encode_scalar(s) =~= seq![s as u8]);
    } else {
        assert(forall|x: u8| #[trigger] (0xC0u8 | x) >= 0x80) by (bit_vector);
        assert(forall|x: u8| #[trigger] (0xE0u8 | x) >= 0x80) by (bit_vector);
        assert(forall|x: u8| #[trigger] (0xF0u8 | x) >= 0x80) by (bit_vector);
        assert(forall|x: u8| #[trigger] (0x80u8 | x) >= 0x80) by (bit_vector);
    }
}

proof fn lemma_collapse_prefix(p: Seq<u8>, x: Seq<u8>)
    requires
        forall|k: int| 0 <= k < p.len() ==> p[k] != 13u8,
    ensures
        crlf_collapsed_bytes(p + x) == p + crlf_collapsed_bytes(x),
    decreases p.len(),
{
    if p.len() > 0 {
        assert((p + x).drop_first() =~= p.drop_first() + x);
        lemma_collapse_prefix(p.drop_first(), x);
        assert(p + crlf_collapsed_bytes(x) =~= seq![p[0]] + (p.drop_first() + crlf_collapsed_bytes(x)));
    } else {
        assert(p + x =~= x);
        assert(p + crlf_collapsed_bytes(x) =~= crlf_collapsed_bytes(x));
    }
}

proof fn lemma_collapse_encode(cs: Seq<char>)
    ensures
        encode_utf8(crlf_collapsed(cs)) == crlf_collapsed_bytes(encode_utf8(cs)),
    decreases cs.len(),
{
    if cs.len() > 0 {
        let c = cs[0];
        let rest = cs.drop_first();
        let x = encode_utf8(rest);
        lemma_scalar_bytes(c);
        lemma_collapse_encode(rest);
        assert(encode_utf8(cs) == encode_scalar(c as u32) + x);
        if rest.len() > 0 {
            lemma_scalar_bytes(rest[0]);
            assert(x == encode_scalar(rest[0] as u32) + encode_utf8(rest.drop_first()));
            assert(x[0] == encode_scalar(rest[0] as u32)[0]);
            assert(x[0] == 10u8 <==> rest[0] == '\n') by {
                if x[0] == 10u8 {
                    assert((rest[0] as u32) <= 0x7F);
                    vstd::utf8::char_u32_cast(rest[0], 10u32);
                }
            }
        } else {
            assert(x =~= Seq::<u8>::empty());
        }
        let e = encode_utf8(cs);
        if c == '\r' && rest.len() > 0 && rest[0] == '\n' {
            assert(encode_scalar(c as u32) == seq![13u8]);
            assert(e.drop_first() =~= x);
        } else {
            if c == '\r' {
                assert(encode_scalar(c as u32) == seq![13u8]);
                assert(e.drop_first() =~= x);
                assert(encode_utf8(crlf_collapsed(cs)) == encode_scalar(c as u32) + encode_utf8(
                    crlf_collapsed(rest),
                )) by {
                    assert(crlf_collapsed(cs) == seq![c] + crlf_collapsed(rest));
                    assert((seq![c] + crlf_collapsed(rest)).drop_first() =~= crlf_collapsed(rest));
                }
            } else {
                assert(forall|k: int|
                    0 <= k < encode_scalar(c as u32).len() ==> #[trigger] encode_scalar(c as u32)[k] != 13u8)
                    by {
                    if (c as u32) <= 0x7F {
                        if (c as u32) as u8 == 13u8 {
                            vstd::utf8::char_u32_cast(c, 13u32);
                        }
                    }
                }
                lemma_collapse_prefix(encode_scalar(c as u32), x);
                assert(crlf_collapsed(cs) == seq![c] + crlf_collapsed(rest));
                assert((seq![c] + crlf_collapsed(rest)).drop_first() =~= crlf_collapsed(rest));
            }
        }
    }
}

proof fn lemma_occurs_pair(h: Seq<u8>, needle: Seq<u8>, j: int)
    requires
        needle == seq![13u8, 10u8],
        0 <= j,
        j + 2 <= h.len(),
    ensures
        occurs_at(h, needle, j) <==> (h[j] == 13u8 && h[j + 1] == 10u8),
{
    if h[j] == 13u8 && h[j + 1] == 10u8 {
        assert(h.subrange(j, j + 2) =~= needle);
    }
    if occurs_at(h, needle, j) {
        assert(h.subrange(j, j + 2)[0] == h[j]);
        assert(h.subrange(j, j + 2)[1] == h[j + 1]);
    }
}

proof fn lemma_no_cr(b: Seq<u8>)
    requires
        forall|j: int| 0 <= j < b.len() ==> b[j] != 13u8,
    ensures
        crlf_collapsed_bytes(b) == b,
    decreases b.len(),
{
    if b.len() > 0 {
        lemma_no_cr(b.drop_first());
        assert(seq![b[0]] + b.drop_first() =~= b);
    }
}

proof fn lemma_segment(b: Seq<u8>, needle: Seq<u8>, idx: int)
    requires
        needle == seq![13u8, 10u8],
        0 <= idx <= b.len(),
        forall|j: int| 0 <= j < idx ==> !occurs_at(b, needle, j),
    ensures
        crlf_collapsed_bytes(b) == b.subrange(0, idx) + crlf_collapsed_bytes(b.subrange(idx, b.len() as int)),
    decreases idx,
{
    if idx == 0 {
        assert(b.subrange(0, 0) + b.subrange(0, b.len() as int) =~= b);
    } else {
        let t = b.drop_first();
        if b.len() >= 2 {
            lemma_occurs_pair(b, needle, 0);
        }
        assert forall|j: int| 0 <= j < idx - 1 implies !occurs_at(t, needle, j) by {
            if j + 2 <= t.len() {
                lemma_occurs_pair(t, needle, j);
                lemma_occurs_pair(b, needle, j + 1);
            }
        }
        lemma_segment(t, needle, idx - 1);
        assert(t.subrange(idx - 1, t.len() as int) =~= b.subrange(idx, b.len() as int));
        assert(seq![b[0]] + t.subrange(0, idx - 1) =~= b.subrange(0, idx));
        assert(seq![b[0]] + (t.subrange(0, idx - 1) + crlf_collapsed_bytes(b.subrange(idx, b.len() as int)))
            =~= b.subrange(0, idx) + crlf_collapsed_bytes(b.subrange(idx, b.len() as int)));
    }
}

proof fn lemma_cr_byte(cs: Seq<char>, k: int)
    requires
        0 <= k < encode_utf8(cs).len(),
        encode_utf8(cs)[k] == 13u8,
    ensures
        cs.contains('\r'),
    decreases cs.len(),
{
    if cs.len() > 0 {
        let c = cs[0];
        let rest = cs.drop_first();
        lemma_scalar_bytes(c);
        let p = encode_scalar(c as u32);
        assert(encode_utf8(cs) == p + encode_utf8(rest));
        if k < p.len() {
            assert(p[k] == 13u8);
            assert((c as u32) <= 0x7F);
            vstd::utf8::char_u32_cast(c, 13u32);
            assert(cs[0] == '\r');
        } else {
            lemma_cr_byte(rest, k - p.len());
            let j = choose|j: int| 0 <= j < rest.len() && rest[j] == '\r';
            assert(cs[j + 1] == '\r');
        }
    }
}

proof fn lemma_cr_char(cs: Seq<char>, j: int)
    requires
        0 <= j < cs.len(),
        cs[j] == '\r',
    ensures
        exists|k: int| 0 <= k < encode_utf8(cs).len() && encode_utf8(cs)[k] == 13u8,
    decreases cs.len(),
{
    let c = cs[0];
    let rest = cs.drop_first();
    lemma_scalar_bytes(c);
    let p = encode_scalar(c as u32);
    assert(encode_utf8(cs) == p + encode_utf8(rest));
    if j == 0 {
        assert(encode_utf8(cs)[0] == 13u8);
    } else {
        lemma_cr_char(rest, j - 1);
        let k = choose|k: int| 0 <= k < encode_utf8(rest).len() && encode_utf8(rest)[k] == 13u8;
        assert(encode_utf8(cs)[p.len() + k] == 13u8);
    }
}

/// Replaces every CRLF pair with a single LF; a carriage return that no line feed
/// follows is kept. Text without any carriage return needs no change and gives `None`,
/// so that the caller keeps using it without a copy.
pub fn normalize_line_ending(s: &str) -> (r: Option<String>)
    ensures
        r is None <==> !s@.contains('\r'),
        r is None ==> crlf_collapsed(s@) == s@,
        r matches Some(x) ==> x@ == crlf_collapsed(s@),
{
    let bytes = s.as_bytes();
    let ghost target = crlf_collapsed(s@);
    proof {
        lemma_collapse_encode(s@);
        encode_utf8_valid_utf8(target);
        encode_utf8_decode_utf8(target);
        encode_utf8_decode_utf8(s@);
    }
    match find_byte(13u8, bytes) {
        None => {
            proof {
                lemma_no_cr(bytes@);
                if s@.contains('\r') {
                    let j = choose|j: int| 0 <= j < s@.len() && s@[j] == '\r';
                    lemma_cr_char(s@, j);
                }
            }
            return None;
        },
        Some(i) => {
            proof {
                lemma_cr_byte(s@, i as int);
            }
        },
    }
    let needle: Vec<u8> = vec![13u8, 10u8];
    assert(needle@ =~= seq![13u8, 10u8]);
    let n = bytes.len();
    let mut out: Vec<u8> = Vec::new();
    let mut pos: usize = 0;
    assert(bytes@.subrange(0, n as int) =~= bytes@);
    loop
        invariant_except_break
            crlf_collapsed_bytes(bytes@) == out@ + crlf_collapsed_bytes(
                bytes@.subrange(pos as int, n as int),
            ),
        invariant
            n == bytes@.len(),
            needle@ == seq![13u8, 10u8],
            pos <= n,
            encode_utf8(target) == crlf_collapsed_bytes(bytes@),
            valid_utf8(encode_utf8(target)),
            decode_utf8(encode_utf8(target)) == target,
        ensures
            out@ == crlf_collapsed_bytes(bytes@),
        decreases n - pos,
    {
        let tail = &bytes[pos..n];
        assert(tail@ == bytes@.subrange(pos as int, n as int));
        let stop: usize = match find_bytes(tail, needle.as_slice()) {
            Some(idx) => idx,
            None => tail.len(),
        };
        proof {
            lemma_segment(tail@, needle@, stop as int);
        }
        let ghost before = out@;
        let mut k: usize = 0;
        while k < stop
            invariant
                stop <= tail@.len(),
                k <= stop,
                out@ == before + tail@.subrange(0, k as int),
            decreases stop - k,
        {
            out.push(tail[k]);
            k = k + 1;
            assert(out@ =~= before + tail@.subrange(0, k as int));
        }
        if stop == tail.len() {
            assert(tail@.subrange(stop as int, tail@.len() as int) =~= Seq::<u8>::empty());
            assert(out@ + Seq::<u8>::empty() =~= out@);
            break;
        }
        let ghost at = tail@.subrange(stop as int, tail@.len() as int);
        proof {
            lemma_occurs_pair(tail@, needle@, stop as int);
            assert(at.drop_first() =~= bytes@.subrange(pos + stop + 1, n as int));
        }
        pos = pos + stop + 1;
    }
    Some(string_from_utf8(out))
}

} // verus!
