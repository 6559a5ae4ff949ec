use vstd::prelude::*;

use vstd::pervasive::VecAdditionalExecFns;
use vstd::string::{StrSliceExecFns, StringSliceAdditionalSpecFns};
use vstd::utf8::{decode_utf8, encode_utf8, valid_utf8};

use crate::DniError;

verus! {

/// The fixed on-disk size of the header block, in bytes.
pub const DNI_HDR_LEN: usize = 128;

/// An ordered list of key-value pairs. Insertion order is meaningful: it
/// fixes the byte order of the encoded block.
pub type Header = Vec<(String, String)>;

/// The pairs of a header as character sequences.
pub open spec fn header_view(h: Seq<(String, String)>) -> Seq<(Seq<char>, Seq<char>)> {
    Seq::new(h.len(), |i: int| (h[i].0@, h[i].1@))
}

/// What String::from_utf8_lossy returns on bytes that are not valid UTF-8;
/// a function of the bytes alone.
pub uninterp spec fn lossy_of(b: Seq<u8>) -> Seq<char>;

/// The characters a byte sequence reads as: valid UTF-8 decodes exactly,
/// anything else goes through the lossy placeholder decoding.
pub open spec fn decoded(b: Seq<u8>) -> Seq<char> {
    if valid_utf8(b) {
        decode_utf8(b)
    } else {
        lossy_of(b)
    }
}

/// Relies on String::from_utf8_lossy: bytes that are valid UTF-8 decode to
/// exactly the characters they encode, and invalid sequences are replaced
/// with a placeholder, depending on the input bytes alone.
#[verifier::external_body]
fn lossy_string(b: &Vec<u8>) -> (r: String)
    ensures
        r@ == decoded(b@),
        !valid_utf8(b@) ==> r@ == lossy_of(b@),
{
    String::from_utf8_lossy(b).into_owned()
}

/// Index of the first occurrence of x in b, or b.len() when x is absent.
pub open spec fn find_byte(b: Seq<u8>, x: u8) -> int
    decreases b.len(),
{
    if b.len() == 0 {
        0
    } else if b[0] == x {
        0
    } else {
        1 + find_byte(b.drop_first(), x)
    }
}

/// find_byte lands on the first occurrence, or past the end when there is
/// none.
pub proof fn lemma_find_byte(b: Seq<u8>, x: u8)
    ensures
        0 <= find_byte(b, x) <= b.len(),
        find_byte(b, x) < b.len() ==> b[find_byte(b, x)] == x,
        forall|j: int| 0 <= j < find_byte(b, x) ==> b[j] != x,
    decreases b.len(),
{
    if b.len() == 0 {
    } else if b[0] == x {
    } else {
        lemma_find_byte(b.drop_first(), x);
        assert forall|j: int| 0 <= j < find_byte(b, x) implies b[j] != x by {
            if j > 0 {
                assert(b.drop_first()[j - 1] != x);
            }
        }
    }
}

/// A scan that misses x up to n and hits it at n (or ran off the end there)
/// pins find_byte to n.
pub proof fn lemma_find_byte_is(b: Seq<u8>, x: u8, n: int)
    requires
        0 <= n <= b.len(),
        forall|j: int| 0 <= j < n ==> b[j] != x,
        n < b.len() ==> b[n] == x,
    ensures
        find_byte(b, x) == n,
    decreases b.len(),
{
    if b.len() == 0 {
    } else if b[0] == x {
        assert(n == 0);
    } else {
        assert(n >= 1);
        assert forall|j: int| 0 <= j < n - 1 implies b.drop_first()[j] != x by {
            assert(b[j + 1] != x);
        }
        lemma_find_byte_is(b.drop_first(), x, n - 1);
    }
}

/// b without its leading null bytes.
pub open spec fn trim_front(b: Seq<u8>) -> Seq<u8>
    decreases b.len(),
{
    if b.len() > 0 && b[0] == 0u8 {
        trim_front(b.drop_first())
    } else {
        b
    }
}

/// b without its trailing null bytes.
pub open spec fn trim_back(b: Seq<u8>) -> Seq<u8>
    decreases b.len(),
{
    if b.len() > 0 && b.last() == 0u8 {
        trim_back(b.drop_last())
    } else {
        b
    }
}

/// b without null bytes on either end, as trimming the decoded text of a
/// block strips its zero padding.
pub open spec fn trim_nulls(b: Seq<u8>) -> Seq<u8> {
    trim_back(trim_front(b))
}

/// One parsed line: the bytes before the first colon and the bytes after it,
/// or None when the line has no colon.
pub open spec fn parse_line(line: Seq<u8>) -> Option<(Seq<u8>, Seq<u8>)> {
    let j = find_byte(line, 58u8);
    if j == line.len() {
        None
    } else {
        Some((line.take(j), line.skip(j + 1)))
    }
}

/// The fields of a trimmed header block: split on newlines, empty lines
/// skipped, every remaining line split at its first colon. None when some
/// non-empty line has no colon.
pub open spec fn parse_fields(b: Seq<u8>) -> Option<Seq<(Seq<u8>, Seq<u8>)>>
    decreases b.len(),
    via parse_fields_decreases
{
    if b.len() == 0 {
        Some(Seq::empty())
    } else {
        let i = find_byte(b, 10u8);
        let line = b.take(i);
        let rest = if i < b.len() {
            b.skip(i + 1)
        } else {
            Seq::empty()
        };
        match parse_fields(rest) {
            None => None,
            Some(tail) => {
                if line.len() == 0 {
                    Some(tail)
                } else {
                    match parse_line(line) {
                        None => None,
                        Some(p) => Some(seq![p] + tail),
                    }
                }
            },
        }
    }
}

#[via_fn]
proof fn parse_fields_decreases(b: Seq<u8>) {
    lemma_find_byte(b, 10u8);
}

/// Each parsed byte field read as characters.
pub open spec fn decoded_fields(ps: Seq<(Seq<u8>, Seq<u8>)>) -> Seq<(Seq<char>, Seq<char>)> {
    Seq::new(ps.len(), |i: int| (decoded(ps[i].0), decoded(ps[i].1)))
}

/// A parse result with already-parsed fields put back in front of it.
pub open spec fn opt_prepend(
    p: Seq<(Seq<u8>, Seq<u8>)>,
    o: Option<Seq<(Seq<u8>, Seq<u8>)>>,
) -> Option<Seq<(Seq<u8>, Seq<u8>)>> {
    match o {
        None => None,
        Some(tail) => Some(p + tail),
    }
}

/// Decode a header block: strip null padding from both ends, split the rest
/// on newlines, skip empty lines, and split each remaining line at its first
/// colon into a key and a value. A non-empty line without a colon is a
/// malformed field.
pub fn read(block: &Vec<u8>) -> (r: Result<Header, DniError>)
    ensures
        r is Ok <==> parse_fields(trim_nulls(block@)) is Some,
        r is Err ==> r == Err::<Header, DniError>(DniError::MalformedField),
        r is Ok ==> header_view(r.unwrap()@) == decoded_fields(
            parse_fields(trim_nulls(block@)).unwrap(),
        ),
{
    let mut lo: usize = 0;
    proof {
        assert(block@.skip(0) =~= block@);
    }
    while lo < block.len() && block[lo] == 0
        invariant
            0 <= lo <= block@.len(),
            trim_front(block@) == trim_front(block@.skip(lo as int)),
        decreases block@.len() - lo,
    {
        proof {
            assert(block@.skip(lo as int)[0] == block@[lo as int]);
            assert(block@.skip(lo as int).drop_first() =~= block@.skip(lo as int + 1));
        }
        lo = lo + 1;
    }
    proof {
        if lo < block@.len() {
            assert(block@.skip(lo as int)[0] == block@[lo as int]);
        } else {
            assert(block@.skip(lo as int) =~= Seq::<u8>::empty());
        }
        assert(trim_front(block@) == block@.skip(lo as int));
        assert(block@.skip(lo as int) =~= block@.subrange(lo as int, block@.len() as int));
    }
    let mut hi: usize = block.len();
    while hi > lo && block[hi - 1] == 0
        invariant
            lo <= hi <= block@.len(),
            trim_back(block@.skip(lo as int)) == trim_back(
                block@.subrange(lo as int, hi as int),
            ),
        decreases hi,
    {
        proof {
            let s = block@.subrange(lo as int, hi as int);
            assert(s.last() == block@[hi as int - 1]);
            assert(s.drop_last() =~= block@.subrange(lo as int, hi as int - 1));
        }
        hi = hi - 1;
    }
    proof {
        if hi > lo {
            assert(block@.subrange(lo as int, hi as int).last() == block@[hi as int - 1]);
        } else {
            assert(block@.subrange(lo as int, hi as int) =~= Seq::<u8>::empty());
        }
        assert(trim_nulls(block@) == block@.subrange(lo as int, hi as int));
    }
    let ghost t = block@.subrange(lo as int, hi as int);
    let mut header: Vec<(String, String)> = Vec::new();
    let ghost mut pairs: Seq<(Seq<u8>, Seq<u8>)> = Seq::empty();
    let mut i: usize = lo;
    proof {
        assert(t.skip(0) =~= t);
        assert(header_view(header@) =~= decoded_fields(pairs));
        if parse_fields(t) is Some {
            assert(Seq::<(Seq<u8>, Seq<u8>)>::empty() + parse_fields(t).unwrap() =~= parse_fields(
                t,
            ).unwrap());
        }
    }
    while i < hi
        invariant
            lo <= i <= hi <= block@.len(),
            t == block@.subrange(lo as int, hi as int),
            trim_nulls(block@) == t,
            parse_fields(t) == opt_prepend(pairs, parse_fields(t.skip(i as int - lo as int))),
            header_view(header@) == decoded_fields(pairs),
        decreases hi - i,
    {
        let ghost rem = t.skip(i as int - lo as int);
        proof {
            assert(forall|m: int| 0 <= m < rem.len() ==> rem[m] == block@[i as int + m]);
        }
        let mut j: usize = i;
        while j < hi && block[j] != 10
            invariant
                i <= j <= hi <= block@.len(),
                forall|m: int| i <= m < j ==> block@[m] != 10u8,
            decreases hi - j,
        {
            j = j + 1;
        }
        proof {
            lemma_find_byte_is(rem, 10u8, j as int - i as int);
        }
        if j == i {
            proof {
                assert(rem.skip(1) =~= t.skip(i as int + 1 - lo as int));
                assert(parse_fields(rem) == parse_fields(rem.skip(1)));
            }
            i = i + 1;
        } else {
            let mut c: usize = i;
            while c < j && block[c] != 58
                invariant
                    i <= c <= j <= hi <= block@.len(),
                    forall|m: int| i <= m < c ==> block@[m] != 58u8,
                decreases j - c,
            {
                c = c + 1;
            }
            let ghost line = rem.take(j as int - i as int);
            proof {
                assert(forall|m: int| 0 <= m < line.len() ==> line[m] == block@[i as int + m]);
                lemma_find_byte_is(line, 58u8, c as int - i as int);
            }
            if c == j {
                proof {
                    assert(parse_line(line) is None);
                    assert(parse_fields(rem) is None);
                }
                return Err(DniError::MalformedField);
            }
            let key_bytes = sub_vec(block, i, c);
            let val_bytes = sub_vec(block, c + 1, j);
            let key = lossy_string(&key_bytes);
            let value = lossy_string(&val_bytes);
            let ghost k_chars = key@;
            let ghost v_chars = value@;
            let ghost old_hdr = header@;
            let ghost old_pairs = pairs;
            header.push((key, value));
            proof {
                let p = (key_bytes@, val_bytes@);
                assert(key_bytes@ =~= line.take(c as int - i as int));
                assert(val_bytes@ =~= line.skip(c as int - i as int + 1));
                assert(parse_line(line) == Some(p));
                let rest = if j < hi {
                    rem.skip(j as int - i as int + 1)
                } else {
                    Seq::<u8>::empty()
                };
                assert(parse_fields(rem) == opt_prepend(seq![p], parse_fields(rest)));
                if parse_fields(rest) is Some {
                    assert(pairs + (seq![p] + parse_fields(rest).unwrap()) =~= pairs.push(p)
                        + parse_fields(rest).unwrap());
                }
                pairs = pairs.push(p);
                assert(k_chars == decoded(p.0) && v_chars == decoded(p.1));
                assert(header_view(old_hdr).len() == decoded_fields(old_pairs).len());
                assert(old_hdr.len() == old_pairs.len());
                assert(header@.len() == old_hdr.len() + 1);
                assert(pairs.len() == old_pairs.len() + 1);
                assert(header_view(header@).len() == decoded_fields(pairs).len());
                assert forall|q: int| 0 <= q < header@.len() implies header_view(header@)[q]
                    == decoded_fields(pairs)[q] by {
                    if q < header@.len() - 1 {
                        assert(header_view(old_hdr)[q] == decoded_fields(old_pairs)[q]);
                        assert(header@[q] == old_hdr[q]);
                    } else {
                        assert(header@[q].0@ == k_chars && header@[q].1@ == v_chars);
                    }
                }
                assert(header_view(header@) =~= decoded_fields(pairs));
                if j < hi {
                    assert(rem.skip(j as int - i as int + 1) =~= t.skip(
                        j as int + 1 - lo as int,
                    ));
                } else {
                    assert(t.skip(j as int - lo as int) =~= Seq::<u8>::empty());
                }
            }
            if j < hi {
                i = j + 1;
            } else {
                proof {
                    assert(t.skip(hi as int - lo as int) =~= Seq::<u8>::empty());
                }
                i = j;
            }
        }
    }
    proof {
        assert(t.skip(hi as int - lo as int) =~= Seq::<u8>::empty());
        assert(pairs + Seq::<(Seq<u8>, Seq<u8>)>::empty() =~= pairs);
    }
    Ok(header)
}

/// A copy of the bytes of b in [from, to).
pub(crate) fn sub_vec(b: &Vec<u8>, from: usize, to: usize) -> (r: Vec<u8>)
    requires
        from <= to <= b@.len(),
    ensures
        r@ == b@.subrange(from as int, to as int),
{
    let mut r: Vec<u8> = Vec::new();
    let mut m: usize = from;
    proof {
        assert(b@.subrange(from as int, from as int) =~= Seq::<u8>::empty());
    }
    while m < to
        invariant
            from <= m <= to <= b@.len(),
            r@ == b@.subrange(from as int, m as int),
        decreases to - m,
    {
        r.push(b[m]);
        m = m + 1;
        proof {
            assert(b@.subrange(from as int, m as int) =~= b@.subrange(
                from as int,
                m as int - 1,
            ).push(b@[m as int - 1]));
        }
    }
    r
}

/// The bytes of one encoded pair: key, colon, value, newline.
pub open spec fn field_bytes(k: Seq<char>, v: Seq<char>) -> Seq<u8> {
    encode_utf8(k) + seq![58u8] + encode_utf8(v) + seq![10u8]
}

/// The bytes of an encoded header: its fields in order, concatenated.
pub open spec fn header_bytes(h: Seq<(Seq<char>, Seq<char>)>) -> Seq<u8>
    decreases h.len(),
{
    if h.len() == 0 {
        Seq::empty()
    } else {
        field_bytes(h[0].0, h[0].1) + header_bytes(h.drop_first())
    }
}

/// The full block: the encoded header, zero-padded to 128 bytes.
pub open spec fn block_bytes(h: Seq<(Seq<char>, Seq<char>)>) -> Seq<u8>
    recommends
        header_bytes(h).len() <= 128,
{
    header_bytes(h) + Seq::new((128 - header_bytes(h).len()) as nat, |i: int| 0u8)
}

/// Encoding distributes over concatenation of headers.
proof fn lemma_header_bytes_concat(a: Seq<(Seq<char>, Seq<char>)>, b: Seq<(Seq<char>, Seq<char>)>)
    ensures
        header_bytes(a + b) == header_bytes(a) + header_bytes(b),
    decreases a.len(),
{
    if a.len() == 0 {
        assert(a + b =~= b);
        assert(Seq::<u8>::empty() + header_bytes(b) =~= header_bytes(b));
    } else {
        assert((a + b).drop_first() =~= a.drop_first() + b);
        lemma_header_bytes_concat(a.drop_first(), b);
        assert(header_bytes(a + b) =~= header_bytes(a) + header_bytes(b));
    }
}

/// Appending one pair appends its field bytes.
proof fn lemma_header_bytes_snoc(h: Seq<(Seq<char>, Seq<char>)>, p: (Seq<char>, Seq<char>))
    ensures
        header_bytes(h.push(p)) == header_bytes(h) + field_bytes(p.0, p.1),
{
    assert(h.push(p) =~= h + seq![p]);
    lemma_header_bytes_concat(h, seq![p]);
    assert(seq![p].drop_first() =~= Seq::<(Seq<char>, Seq<char>)>::empty());
    assert(header_bytes(Seq::<(Seq<char>, Seq<char>)>::empty()) == Seq::<u8>::empty());
    assert(header_bytes(seq![p]) == field_bytes(p.0, p.1) + Seq::<u8>::empty());
    assert(field_bytes(p.0, p.1) + Seq::<u8>::empty() =~= field_bytes(p.0, p.1));
}

/// A prefix of a header encodes to no more bytes than the whole.
proof fn lemma_header_bytes_prefix_len(h: Seq<(Seq<char>, Seq<char>)>, n: int)
    requires
        0 <= n <= h.len(),
    ensures
        header_bytes(h.take(n)).len() <= header_bytes(h).len(),
{
    assert(h =~= h.take(n) + h.skip(n));
    lemma_header_bytes_concat(h.take(n), h.skip(n));
}

/// Encode the header: each pair in order as "key:value\n", then zero padding
/// to exactly 128 bytes. The encoding must fit the fixed block; on an
/// oversized header the original aborts, so such headers are ruled out here.
pub fn write(header: &Header) -> (block: Vec<u8>)
    requires
        header_bytes(header_view(header@)).len() <= 128,
    ensures
        block@.len() == 128,
        block@ == block_bytes(header_view(header@)),
{
    let ghost hv = header_view(header@);
    let mut out: Vec<u8> = Vec::new();
    let mut idx: usize = 0;
    proof {
        assert(hv.take(0) =~= Seq::<(Seq<char>, Seq<char>)>::empty());
    }
    while idx < header.len()
        invariant
            0 <= idx <= header@.len(),
            hv == header_view(header@),
            out@ == header_bytes(hv.take(idx as int)),
            header_bytes(hv).len() <= 128,
        decreases header@.len() - idx,
    {
        let mut field = header[idx].0.as_str().as_bytes_vec();
        field.push(58);
        let mut vb = header[idx].1.as_str().as_bytes_vec();
        field.append(&mut vb);
        field.push(10);
        proof {
            assert(hv[idx as int] == (header@[idx as int].0@, header@[idx as int].1@));
            assert(field@ =~= field_bytes(hv[idx as int].0, hv[idx as int].1));
        }
        out.append(&mut field);
        proof {
            lemma_header_bytes_snoc(hv.take(idx as int), hv[idx as int]);
            assert(hv.take(idx as int).push(hv[idx as int]) =~= hv.take(idx as int + 1));
        }
        idx = idx + 1;
    }
    proof {
        assert(hv.take(hv.len() as int) =~= hv);
        lemma_header_bytes_prefix_len(hv, hv.len() as int);
    }
    let ghost enc = header_bytes(hv);
    while out.len() < 128
        invariant
            enc.len() <= out@.len() <= 128,
            enc == header_bytes(hv),
            out@.take(enc.len() as int) == enc,
            forall|j: int| enc.len() <= j < out@.len() ==> out@[j] == 0u8,
        decreases 128 - out@.len(),
    {
        out.push(0);
        proof {
            assert(out@.take(enc.len() as int) =~= enc);
        }
    }
    proof {
        assert(out@ =~= block_bytes(hv));
    }
    out
}

/// Whether the encoded header fits the 128-byte block; what Write demands
/// before it runs.
pub fn fits(header: &Header) -> (b: bool)
    ensures
        b == (header_bytes(header_view(header@)).len() <= 128),
{
    let ghost hv = header_view(header@);
    let mut total: usize = 0;
    let mut idx: usize = 0;
    proof {
        assert(hv.take(0) =~= Seq::<(Seq<char>, Seq<char>)>::empty());
    }
    while idx < header.len()
        invariant
            0 <= idx <= header@.len(),
            hv == header_view(header@),
            total <= 128,
            total == header_bytes(hv.take(idx as int)).len(),
        decreases header@.len() - idx,
    {
        let kb = header[idx].0.as_str().as_bytes_vec();
        let vb = header[idx].1.as_str().as_bytes_vec();
        let klen = kb.len();
        let vlen = vb.len();
        let rem = 128 - total;
        proof {
            assert(hv[idx as int] == (header@[idx as int].0@, header@[idx as int].1@));
            lemma_header_bytes_snoc(hv.take(idx as int), hv[idx as int]);
            assert(hv.take(idx as int).push(hv[idx as int]) =~= hv.take(idx as int + 1));
            assert(klen == encode_utf8(hv[idx as int].0).len());
            assert(vlen == encode_utf8(hv[idx as int].1).len());
            assert(header_bytes(hv.take(idx as int + 1)).len() == total + klen + vlen + 2);
        }
        if klen > rem || vlen > rem - klen || 2 > rem - klen - vlen {
            proof {
                assert(header_bytes(hv.take(idx as int + 1)).len() > 128);
                assert(hv =~= hv.take(idx as int + 1) + hv.skip(idx as int + 1));
                lemma_header_bytes_concat(hv.take(idx as int + 1), hv.skip(idx as int + 1));
            }
            return false;
        }
        total = total + klen + vlen + 2;
        idx = idx + 1;
    }
    proof {
        assert(hv.take(hv.len() as int) =~= hv);
    }
    true
}

/// Index of the first pair whose key reads as k, or h.len() when no key
/// does.
pub open spec fn find_key(h: Seq<(Seq<char>, Seq<char>)>, k: Seq<char>) -> int
    decreases h.len(),
{
    if h.len() == 0 {
        0
    } else if h[0].0 == k {
        0
    } else {
        1 + find_key(h.drop_first(), k)
    }
}

/// find_key lands on the first pair with the key, or past the end when no
/// pair has it.
pub proof fn lemma_find_key(h: Seq<(Seq<char>, Seq<char>)>, k: Seq<char>)
    ensures
        0 <= find_key(h, k) <= h.len(),
        find_key(h, k) < h.len() ==> h[find_key(h, k)].0 == k,
        forall|j: int| 0 <= j < find_key(h, k) ==> h[j].0 != k,
    decreases h.len(),
{
    if h.len() == 0 {
    } else if h[0].0 == k {
    } else {
        lemma_find_key(h.drop_first(), k);
        assert forall|j: int| 0 <= j < find_key(h, k) implies h[j].0 != k by {
            if j > 0 {
                assert(h.drop_first()[j - 1].0 != k);
            }
        }
    }
}

/// A scan that misses the key up to n and hits it at n (or ran off the end
/// there) pins find_key to n.
pub proof fn lemma_find_key_is(h: Seq<(Seq<char>, Seq<char>)>, k: Seq<char>, n: int)
    requires
        0 <= n <= h.len(),
        forall|j: int| 0 <= j < n ==> h[j].0 != k,
        n < h.len() ==> h[n].0 == k,
    ensures
        find_key(h, k) == n,
    decreases h.len(),
{
    if h.len() == 0 {
    } else if h[0].0 == k {
        assert(n == 0);
    } else {
        assert(n >= 1);
        assert forall|j: int| 0 <= j < n - 1 implies h.drop_first()[j].0 != k by {
            assert(h[j + 1].0 != k);
        }
        lemma_find_key_is(h.drop_first(), k, n - 1);
    }
}

/// The header after inserting (k, v): the first pair whose key is k gets the
/// new value, keeping its place; with no such pair the new pair goes at the
/// end.
pub open spec fn insert_view(
    h: Seq<(Seq<char>, Seq<char>)>,
    k: Seq<char>,
    v: Seq<char>,
) -> Seq<(Seq<char>, Seq<char>)> {
    let i = find_key(h, k);
    if i < h.len() {
        h.update(i, (k, v))
    } else {
        h.push((k, v))
    }
}

/// Linear search for the key: overwrite the first match in place, else
/// append the pair.
pub fn insert(header: &mut Header, key: String, value: String)
    ensures
        header_view(final(header)@) == insert_view(header_view(old(header)@), key@, value@),
        ({
            let i = find_key(header_view(old(header)@), key@);
            if i < old(header)@.len() {
                final(header)@ == old(header)@.update(i, (key, value))
            } else {
                final(header)@ == old(header)@.push((key, value))
            }
        }),
{
    let ghost hv = header_view(old(header)@);
    let ghost k_chars = key@;
    let ghost v_chars = value@;
    let mut idx: usize = 0;
    let mut found = false;
    while idx < header.len() && !found
        invariant
            0 <= idx <= header@.len(),
            header@ == old(header)@,
            hv == header_view(header@),
            k_chars == key@,
            !found ==> forall|j: int| 0 <= j < idx ==> hv[j].0 != k_chars,
            found ==> (idx >= 1 && idx - 1 == find_key(hv, k_chars) && idx - 1 < hv.len()),
        decreases header@.len() - idx,
    {
        if header[idx].0 == key {
            proof {
                assert(hv[idx as int].0 == header@[idx as int].0@);
                lemma_find_key_is(hv, k_chars, idx as int);
            }
            found = true;
        }
        idx = idx + 1;
    }
    if found {
        let pos = idx - 1;
        header.set(pos, (key, value));
        proof {
            assert(header@ == old(header)@.update(pos as int, header@[pos as int]));
            assert(header_view(header@) =~= insert_view(hv, k_chars, v_chars));
        }
    } else {
        proof {
            lemma_find_key_is(hv, k_chars, idx as int);
        }
        header.push((key, value));
        proof {
            assert(header_view(header@) =~= insert_view(hv, k_chars, v_chars));
        }
    }
}

/// n zero bytes.
pub open spec fn zeros(n: int) -> Seq<u8> {
    Seq::new(n as nat, |i: int| 0u8)
}

/// s holds no occurrence of the character c.
pub open spec fn no_char(s: Seq<char>, c: char) -> bool {
    forall|j: int| 0 <= j < s.len() ==> s[j] != c
}

/// A pair the codec can round-trip: no colon in the key, and no newline or
/// null anywhere, since those bytes delimit fields and padding.
pub open spec fn pair_encodable(p: (Seq<char>, Seq<char>)) -> bool {
    &&& no_char(p.0, ':')
    &&& no_char(p.0, '\n')
    &&& no_char(p.0, '\u{0}')
    &&& no_char(p.1, '\n')
    &&& no_char(p.1, '\u{0}')
}

/// Every pair of the header is encodable.
pub open spec fn header_encodable(h: Seq<(Seq<char>, Seq<char>)>) -> bool {
    forall|i: int| 0 <= i < h.len() ==> pair_encodable(#[trigger] h[i])
}

/// Distinct characters have distinct code points.
proof fn lemma_char_neq_u32(c: char, d: char)
    requires
        c != d,
    ensures
        c as u32 != d as u32,
{
    if c as u32 == d as u32 {
        vstd::utf8::char_u32_cast(c, c as u32);
        vstd::utf8::char_u32_cast(d, d as u32);
    }
}

/// Setting high bits keeps a byte at or above 0x80.
proof fn lemma_high_or(y: u8)
    by (bit_vector)
    ensures
        (0x80u8 | y) >= 0x80,
        (0xC0u8 | y) >= 0x80,
        (0xE0u8 | y) >= 0x80,
        (0xF0u8 | y) >= 0x80,
{
}

/// Masking with 0x7F keeps a small scalar, and its byte cast is faithful.
proof fn lemma_low_mask(s: u32, x: u8)
    by (bit_vector)
    requires
        s < 0x80,
    ensures
        (s & 0x7F) == s,
        ((s & 0x7F) as u8 == x) ==> s == x as u32,
{
}

/// The UTF-8 encoding of a character other than the ASCII character x never
/// contains the byte x: multi-byte encodings use only bytes at or above
/// 0x80, and a one-byte encoding is the character itself.
proof fn lemma_encode_scalar_no_byte(c: char, x: u8)
    requires
        x < 0x80,
        c as u32 != x as u32,
    ensures
        forall|j: int|
            0 <= j < vstd::utf8::encode_scalar(c as u32).len() ==> #[trigger] vstd::utf8::encode_scalar(
                c as u32,
            )[j] != x,
{
    let s = c as u32;
    vstd::utf8::char_is_scalar(c);
    let e = vstd::utf8::encode_scalar(s);
    if vstd::utf8::has_width_1_encoding(s) {
        lemma_low_mask(s, x);
        assert(e[0] == vstd::utf8::leading_byte_width_1(s));
        assert(e[0] != x);
    } else if vstd::utf8::has_width_2_encoding(s) {
        lemma_high_or(((s >> 6) & 0x1F) as u8);
        lemma_high_or((s & 0x3F) as u8);
        assert(e[0] != x && e[1] != x);
    } else if vstd::utf8::has_width_3_encoding(s) {
        lemma_high_or(((s >> 12) & 0x0F) as u8);
        lemma_high_or(((s >> 6) & 0x3F) as u8);
        lemma_high_or((s & 0x3F) as u8);
        assert(e[0] != x && e[1] != x && e[2] != x);
    } else {
        lemma_high_or(((s >> 18) & 0x7) as u8);
        lemma_high_or(((s >> 12) & 0x3F) as u8);
        lemma_high_or(((s >> 6) & 0x3F) as u8);
        lemma_high_or((s & 0x3F) as u8);
        assert(e[0] != x && e[1] != x && e[2] != x && e[3] != x);
    }
}

/// The UTF-8 encoding of a sequence free of the ASCII character x is free of
/// the byte x.
proof fn lemma_encode_utf8_no_byte(s: Seq<char>, x: u8)
    requires
        x < 0x80,
        no_char(s, x as char),
    ensures
        forall|j: int| 0 <= j < encode_utf8(s).len() ==> encode_utf8(s)[j] != x,
    decreases s.len(),
{
    if s.len() > 0 {
        lemma_char_neq_u32(s[0], x as char);
        lemma_encode_scalar_no_byte(s[0], x);
        assert(no_char(s.drop_first(), x as char)) by {
            assert(forall|j: int|
                0 <= j < s.drop_first().len() ==> s.drop_first()[j] == s[j + 1]);
        }
        lemma_encode_utf8_no_byte(s.drop_first(), x);
        let e0 = vstd::utf8::encode_scalar(s[0] as u32);
        let e1 = encode_utf8(s.drop_first());
        assert forall|j: int| 0 <= j < encode_utf8(s).len() implies encode_utf8(s)[j] != x by {
            if j < e0.len() {
                assert(encode_utf8(s)[j] == e0[j]);
            } else {
                assert(encode_utf8(s)[j] == e1[j - e0.len()]);
            }
        }
    }
}

/// The encoded bytes of an encodable header are never null.
proof fn lemma_header_bytes_no_zero(h: Seq<(Seq<char>, Seq<char>)>)
    requires
        header_encodable(h),
    ensures
        forall|j: int| 0 <= j < header_bytes(h).len() ==> header_bytes(h)[j] != 0u8,
    decreases h.len(),
{
    if h.len() > 0 {
        let ek = encode_utf8(h[0].0);
        let ev = encode_utf8(h[0].1);
        let fb = field_bytes(h[0].0, h[0].1);
        lemma_encode_utf8_no_byte(h[0].0, 0u8);
        lemma_encode_utf8_no_byte(h[0].1, 0u8);
        assert(header_encodable(h.drop_first())) by {
            assert(forall|i: int|
                0 <= i < h.drop_first().len() ==> h.drop_first()[i] == h[i + 1]);
        }
        lemma_header_bytes_no_zero(h.drop_first());
        let e1 = header_bytes(h.drop_first());
        assert forall|j: int| 0 <= j < header_bytes(h).len() implies header_bytes(h)[j]
            != 0u8 by {
            if j < fb.len() {
                assert(header_bytes(h)[j] == fb[j]);
                if j < ek.len() {
                    assert(fb[j] == ek[j]);
                } else if j == ek.len() {
                    assert(fb[j] == 58u8);
                } else if j < ek.len() + 1 + ev.len() {
                    assert(fb[j] == ev[j - ek.len() - 1]);
                } else {
                    assert(fb[j] == 10u8);
                }
            } else {
                assert(header_bytes(h)[j] == e1[j - fb.len()]);
            }
        }
    }
}

/// Zero padding on the right falls to the trailing trim.
proof fn lemma_trim_back_zeros(s: Seq<u8>, n: int)
    requires
        n >= 0,
    ensures
        trim_back(s + zeros(n)) == trim_back(s),
    decreases n,
{
    if n == 0 {
        assert(s + zeros(0) =~= s);
    } else {
        let w = s + zeros(n);
        assert(w.len() > 0 && w.last() == 0u8);
        assert(w.drop_last() =~= s + zeros(n - 1));
        lemma_trim_back_zeros(s, n - 1);
    }
}

/// A run of zeros trims from the front to nothing.
proof fn lemma_trim_front_zeros(n: int)
    requires
        n >= 0,
    ensures
        trim_front(zeros(n)) == Seq::<u8>::empty(),
    decreases n,
{
    if n > 0 {
        assert(zeros(n)[0] == 0u8);
        assert(zeros(n).drop_first() =~= zeros(n - 1));
        lemma_trim_front_zeros(n - 1);
    } else {
        assert(zeros(0) =~= Seq::<u8>::empty());
    }
}

/// Trimming the padded block of an encodable header leaves exactly the
/// encoded header.
proof fn lemma_trim_block(h: Seq<(Seq<char>, Seq<char>)>)
    requires
        header_encodable(h),
        header_bytes(h).len() <= 128,
    ensures
        trim_nulls(block_bytes(h)) == header_bytes(h),
{
    let enc = header_bytes(h);
    let pad = (128 - enc.len()) as int;
    assert(block_bytes(h) =~= enc + zeros(pad));
    lemma_header_bytes_no_zero(h);
    if enc.len() == 0 {
        assert(enc + zeros(pad) =~= zeros(pad));
        lemma_trim_front_zeros(pad);
        assert(trim_back(Seq::<u8>::empty()) == Seq::<u8>::empty());
        assert(trim_nulls(block_bytes(h)) == Seq::<u8>::empty());
        assert(enc =~= Seq::<u8>::empty());
    } else {
        let w = enc + zeros(pad);
        assert(w[0] == enc[0]);
        assert(w[0] != 0u8);
        assert(trim_front(w) == w);
        lemma_trim_back_zeros(enc, pad);
        assert(enc.last() != 0u8);
        assert(trim_back(enc) == enc);
    }
}

/// The byte-level pairs of an encoded header.
pub open spec fn enc_pairs(h: Seq<(Seq<char>, Seq<char>)>) -> Seq<(Seq<u8>, Seq<u8>)> {
    Seq::new(h.len(), |i: int| (encode_utf8(h[i].0), encode_utf8(h[i].1)))
}

/// Parsing the encoded bytes of an encodable header yields exactly its
/// pairs' encodings, in order.
proof fn lemma_parse_header_bytes(h: Seq<(Seq<char>, Seq<char>)>)
    requires
        header_encodable(h),
    ensures
        parse_fields(header_bytes(h)) == Some(enc_pairs(h)),
    decreases h.len(),
{
    if h.len() == 0 {
        assert(header_bytes(h) =~= Seq::<u8>::empty());
        assert(enc_pairs(h) =~= Seq::<(Seq<u8>, Seq<u8>)>::empty());
    } else {
        let ek = encode_utf8(h[0].0);
        let ev = encode_utf8(h[0].1);
        let fb = field_bytes(h[0].0, h[0].1);
        let b = header_bytes(h);
        let h1 = h.drop_first();
        let e1 = header_bytes(h1);
        lemma_char_neq_u32('\n', ':');
        lemma_encode_utf8_no_byte(h[0].0, 10u8);
        lemma_encode_utf8_no_byte(h[0].0, 58u8);
        lemma_encode_utf8_no_byte(h[0].1, 10u8);
        assert(header_encodable(h1)) by {
            assert(forall|i: int| 0 <= i < h1.len() ==> h1[i] == h[i + 1]);
        }
        lemma_parse_header_bytes(h1);
        let nl = fb.len() - 1;
        assert(b.len() == fb.len() + e1.len());
        assert(forall|j: int| 0 <= j < fb.len() ==> b[j] == fb[j]);
        assert forall|j: int| 0 <= j < nl implies b[j] != 10u8 by {
            if j < ek.len() {
                assert(fb[j] == ek[j]);
            } else if j == ek.len() {
                assert(fb[j] == 58u8);
            } else {
                assert(fb[j] == ev[j - ek.len() - 1]);
            }
        }
        assert(b[nl] == fb[nl] == 10u8);
        lemma_find_byte_is(b, 10u8, nl);
        let line = b.take(nl);
        assert(line =~= ek + seq![58u8] + ev);
        let rest = b.skip(nl + 1);
        assert(rest =~= e1);
        assert forall|j: int| 0 <= j < ek.len() implies line[j] != 58u8 by {
            assert(line[j] == ek[j]);
        }
        assert(line[ek.len() as int] == 58u8);
        lemma_find_byte_is(line, 58u8, ek.len() as int);
        assert(line.len() == ek.len() + 1 + ev.len() >= 1);
        assert(line.take(ek.len() as int) =~= ek);
        assert(line.skip(ek.len() as int + 1) =~= ev);
        assert(parse_line(line) == Some((ek, ev)));
        assert(parse_fields(b) == Some(seq![(ek, ev)] + enc_pairs(h1)));
        assert(seq![(ek, ev)] + enc_pairs(h1) =~= enc_pairs(h)) by {
            assert(forall|i: int| 0 <= i < h1.len() ==> h1[i] == h[i + 1]);
        }
    }
}

/// Round trip: decoding a block produced by encoding an encodable header
/// gives back exactly its pairs, in the same order.
pub proof fn lemma_round_trip(h: Seq<(Seq<char>, Seq<char>)>)
    requires
        header_encodable(h),
        header_bytes(h).len() <= 128,
    ensures
        parse_fields(trim_nulls(block_bytes(h))) is Some,
        decoded_fields(parse_fields(trim_nulls(block_bytes(h))).unwrap()) == h,
{
    broadcast use vstd::utf8::encode_utf8_valid_utf8, vstd::utf8::encode_utf8_decode_utf8;

    lemma_trim_block(h);
    lemma_parse_header_bytes(h);
    assert(decoded_fields(enc_pairs(h)) =~= h);
}

/// Inserting an existing key keeps that pair's place and replaces only its
/// value; inserting a new key appends the pair at the end.
pub proof fn lemma_insert_overwrite(h: Seq<(Seq<char>, Seq<char>)>, k: Seq<char>, v: Seq<char>)
    ensures
        (exists|i: int| 0 <= i < h.len() && h[i].0 == k) ==> ({
            let i = find_key(h, k);
            &&& 0 <= i < h.len()
            &&& h[i].0 == k
            &&& forall|j: int| 0 <= j < i ==> h[j].0 != k
            &&& insert_view(h, k, v) == h.update(i, (k, v))
        }),
        (forall|i: int| 0 <= i < h.len() ==> h[i].0 != k) ==> insert_view(h, k, v) == h.push(
            (k, v),
        ),
{
    lemma_find_key(h, k);
    if exists|i: int| 0 <= i < h.len() && h[i].0 == k {
        let w = choose|i: int| 0 <= i < h.len() && h[i].0 == k;
        assert(find_key(h, k) <= w);
    }
}

} // verus!
