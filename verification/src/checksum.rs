use vstd::prelude::*;

use crate::DniError;

verus! {

/// Wrapping 8-bit sum of a byte sequence, accumulated left to right, as an
/// embedded checksum engine computes it.
pub open spec fn wrapping_sum(b: Seq<u8>) -> u8
    decreases b.len(),
{
    if b.len() == 0 {
        0u8
    } else {
        ((wrapping_sum(b.drop_last()) + b.last()) % 256) as u8
    }
}

/// The checksum byte of an image: 0xFF minus the wrapping sum of every byte
/// that precedes the final one.
pub open spec fn checksum_of(b: Seq<u8>) -> u8
    recommends
        b.len() >= 1,
{
    (255 - wrapping_sum(b.drop_last())) as u8
}

/// Subtracting the last byte back out of the full wrapping sum leaves the
/// wrapping sum of everything before it.
proof fn lemma_sum_minus_last(b: Seq<u8>)
    requires
        b.len() >= 1,
    ensures
        vstd::wrapping::u8_specs::wrapping_sub(wrapping_sum(b), b.last()) == wrapping_sum(
            b.drop_last(),
        ),
{
    let s = wrapping_sum(b.drop_last());
    assert(wrapping_sum(b) == ((s + b.last()) % 256) as u8);
}

/// Read the given bytes in order, keeping a wrapping sum and the last byte
/// seen; the result is 0xFF minus the sum of everything but that last byte,
/// with 8-bit wrapping subtraction. An empty input has no last byte and is
/// rejected.
pub fn calculate_checksum(input: &Vec<u8>) -> (r: Result<u8, DniError>)
    ensures
        r is Ok <==> input@.len() > 0,
        input@.len() == 0 ==> r == Err::<u8, DniError>(DniError::EmptyImage),
        input@.len() > 0 ==> r == Ok::<u8, DniError>(checksum_of(input@)),
{
    if input.len() == 0 {
        return Err(DniError::EmptyImage);
    }
    let mut sum: u8 = 0;
    let mut last: u8 = 0;
    let mut i: usize = 0;
    while i < input.len()
        invariant
            0 <= i <= input@.len(),
            sum == wrapping_sum(input@.take(i as int)),
            i > 0 ==> last == input@[i as int - 1],
        decreases input@.len() - i,
    {
        last = input[i];
        sum = sum.wrapping_add(last);
        i = i + 1;
        proof {
            assert(input@.take(i as int).drop_last() =~= input@.take(i as int - 1));
            assert(input@.take(i as int).last() == input@[i as int - 1]);
        }
    }
    proof {
        assert(input@.take(input@.len() as int) =~= input@);
        lemma_sum_minus_last(input@);
    }
    let diff = sum.wrapping_sub(last);
    Ok(255 - diff)
}

} // verus!
