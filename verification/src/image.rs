use vstd::prelude::*;

use crate::checksum::{calculate_checksum, checksum_of, wrapping_sum};
use crate::header::{
    block_bytes, decoded_fields, fits, header_bytes, header_view, insert_view, parse_fields,
    read, sub_vec, trim_nulls, Header,
};
use crate::DniError;

verus! {

/// The header region of an image: its first 128 bytes, or all of a shorter
/// image.
pub open spec fn head_block(b: Seq<u8>) -> Seq<u8> {
    if b.len() <= 128 {
        b
    } else {
        b.take(128)
    }
}

/// The image bytes behind the header block.
pub open spec fn payload_of(b: Seq<u8>) -> Seq<u8> {
    if b.len() <= 128 {
        Seq::empty()
    } else {
        b.skip(128)
    }
}

/// The parsed byte fields of an image's header region, or None when the
/// region is malformed.
pub open spec fn image_fields(b: Seq<u8>) -> Option<Seq<(Seq<u8>, Seq<u8>)>> {
    parse_fields(trim_nulls(head_block(b)))
}

/// The header that Set writes: the image's decoded pairs with (k, v)
/// inserted.
pub open spec fn set_header(b: Seq<u8>, k: Seq<char>, v: Seq<char>) -> Seq<(Seq<char>, Seq<char>)>
    recommends
        image_fields(b) is Some,
{
    insert_view(decoded_fields(image_fields(b).unwrap()), k, v)
}

/// What Set writes: the re-encoded block, the payload copied behind it, and
/// the final byte overwritten with the freshly computed checksum.
pub open spec fn set_output(b: Seq<u8>, k: Seq<char>, v: Seq<char>) -> Seq<u8>
    recommends
        image_fields(b) is Some,
        header_bytes(set_header(b, k, v)).len() <= 128,
{
    let body = block_bytes(set_header(b, k, v)) + payload_of(b);
    body.drop_last().push(checksum_of(body))
}

/// Rewrite an image: decode its header block, insert (key, value), re-encode
/// the block, copy the payload behind it, and patch the final byte with the
/// checksum recomputed over everything before it. A header block whose
/// non-empty line lacks a colon is malformed; an updated header that no
/// longer fits the block cannot be written.
pub fn set_image(input: &Vec<u8>, key: String, value: String) -> (r: Result<Vec<u8>, DniError>)
    ensures
        r is Ok <==> (image_fields(input@) is Some && header_bytes(
            set_header(input@, key@, value@),
        ).len() <= 128),
        image_fields(input@) is None ==> r == Err::<Vec<u8>, DniError>(DniError::MalformedField),
        (image_fields(input@) is Some && header_bytes(set_header(input@, key@, value@)).len()
            > 128) ==> r == Err::<Vec<u8>, DniError>(DniError::HeaderOverflow),
        r is Ok ==> r.unwrap()@ == set_output(input@, key@, value@),
{
    let ghost k_chars = key@;
    let ghost v_chars = value@;
    let n = if input.len() > 128 {
        128
    } else {
        input.len()
    };
    let block_in = sub_vec(input, 0, n);
    proof {
        assert(block_in@ =~= head_block(input@));
    }
    let mut header: Header = match read(&block_in) {
        Ok(h) => h,
        Err(e) => {
            return Err(e);
        },
    };
    crate::header::insert(&mut header, key, value);
    proof {
        assert(header_view(header@) == set_header(input@, k_chars, v_chars));
    }
    if !fits(&header) {
        return Err(DniError::HeaderOverflow);
    }
    let mut out = crate::header::write(&header);
    let mut m: usize = 128;
    proof {
        assert(payload_of(input@).take(0) =~= Seq::<u8>::empty());
        assert(out@ =~= out@ + Seq::<u8>::empty());
    }
    while m < input.len()
        invariant
            128 <= m,
            m <= input@.len() || m == 128,
            m < input@.len() ==> input@.len() > 128,
            out@ == block_bytes(set_header(input@, k_chars, v_chars)) + payload_of(
                input@,
            ).take(m - 128),
            out@.len() == m,
            header_bytes(set_header(input@, k_chars, v_chars)).len() <= 128,
            image_fields(input@) is Some,
        decreases input@.len() - m,
    {
        out.push(input[m]);
        m = m + 1;
        proof {
            assert(payload_of(input@).take(m - 128) =~= payload_of(input@).take(
                m - 129,
            ).push(input@[m - 1]));
        }
    }
    proof {
        assert(payload_of(input@).take(m - 128) =~= payload_of(input@));
    }
    let ghost body = out@;
    let checksum = match calculate_checksum(&out) {
        Ok(c) => c,
        Err(_) => {
            proof {
                assert(false);
            }
            vstd::pervasive::unreached()
        },
    };
    let last_idx = out.len() - 1;
    out.set(last_idx, checksum);
    proof {
        assert(out@ =~= body.drop_last().push(checksum_of(body)));
    }
    Ok(out)
}

/// What Show learns of an image's checksum.
#[derive(Clone, Copy, Debug, PartialEq, Eq, Structural)]
pub struct ChecksumReport {
    /// The checksum recomputed over the image, its own last byte subtracted
    /// back out.
    pub computed: u8,
    /// The byte stored at the very end of the image.
    pub stored: u8,
}

/// Read the stored checksum byte from the end of the image and recompute the
/// real one over every byte before it. An empty image has neither.
pub fn checksum_report(input: &Vec<u8>) -> (r: Result<ChecksumReport, DniError>)
    ensures
        r is Ok <==> input@.len() > 0,
        input@.len() == 0 ==> r == Err::<ChecksumReport, DniError>(DniError::EmptyImage),
        r is Ok ==> r.unwrap() == (ChecksumReport {
            computed: checksum_of(input@),
            stored: input@.last(),
        }),
{
    if input.len() == 0 {
        return Err(DniError::EmptyImage);
    }
    let stored = input[input.len() - 1];
    let computed = match calculate_checksum(input) {
        Ok(c) => c,
        Err(_) => {
            proof {
                assert(false);
            }
            vstd::pervasive::unreached()
        },
    };
    Ok(ChecksumReport { computed, stored })
}

/// Whether the stored checksum agrees with the recomputed one; Show warns
/// when it does not.
pub fn checksum_matches(r: &ChecksumReport) -> (b: bool)
    ensures
        b == (r.computed == r.stored),
{
    r.computed == r.stored
}

/// Any image written by Set stores as its last byte exactly the checksum of
/// all the bytes before it.
pub proof fn lemma_set_checksum_consistent(b: Seq<u8>, k: Seq<char>, v: Seq<char>)
    requires
        image_fields(b) is Some,
        header_bytes(set_header(b, k, v)).len() <= 128,
    ensures
        set_output(b, k, v).len() >= 128,
        set_output(b, k, v).last() == checksum_of(set_output(b, k, v)),
{
    let body = block_bytes(set_header(b, k, v)) + payload_of(b);
    let out = set_output(b, k, v);
    assert(block_bytes(set_header(b, k, v)).len() == 128);
    assert(out.len() == body.len());
    assert(out.drop_last() =~= body.drop_last());
    assert(out.last() == checksum_of(body));
    assert(checksum_of(out) == (255 - wrapping_sum(out.drop_last())) as u8);
}

} // verus!
