//! Basis-index bookkeeping for register states: which basis strings a
//! register of a given size has, and where a basis string lands when only
//! some of its qubits are read.
use crate::error::QitError;
use crate::gates::bit;
use vstd::prelude::*;

verus! {

/// Whether a register of `size` qubits has the basis string `number`:
/// `Ok(2^size)`, the number of its basis strings, if it has.
pub fn check_basis(size: usize, number: u64) -> (r: Result<u64, QitError>)
    ensures
        size > 63 ==> r == Err::<u64, QitError>(QitError::RegisterTooLarge),
        size <= 63 && number >= (1u64 << (size as u64)) ==> r == Err::<u64, QitError>(
            QitError::BasisOutOfRange,
        ),
        size <= 63 && number < (1u64 << (size as u64)) ==> r == Ok::<u64, QitError>(
            1u64 << (size as u64),
        ),
{
    if size > 63 {
        return Err(QitError::RegisterTooLarge);
    }
    let count = 1u64 << (size as u64);
    if number >= count {
        return Err(QitError::BasisOutOfRange);
    }
    Ok(count)
}

proof fn lemma_set_bit(r: u64, b: u64, j: u64, j1: u64)
    requires
        j1 == j + 1,
        j < 64,
        b <= 1,
        j < 63 ==> r >> j == 0,
        j == 63 ==> r >> j == 0,
    ensures
        forall|i: u64|
            i < 64 ==> #[trigger] (((r | (b << j)) >> i) & 1) == if i == j {
                b
            } else {
                (r >> i) & 1
            },
        j < 63 ==> (r | (b << j)) >> j1 == 0,
{
    assert forall|i: u64| i < 64 implies #[trigger] (((r | (b << j)) >> i) & 1) == if i == j {
        b
    } else {
        (r >> i) & 1
    } by {
        assert(j < 64 && b <= 1 && r >> j == 0 && i < 64 ==> (((r | (b << j)) >> i) & 1) == if i
            == j {
            b
        } else {
            (r >> i) & 1
        }) by (bit_vector);
    }
    if j < 63 {
        assert((r | (b << j)) >> j1 == 0) by (bit_vector)
            requires
                j < 63,
                j1 == j + 1,
                b <= 1,
                r >> j == 0,
        ;
    }
}

/// Where the basis string `index` falls in the distribution over the qubits
/// `targets`: bit `j` of the result is qubit `targets[j]` of `index`, and the
/// result has no other bits.
pub fn marginal_index(index: u64, targets: &[usize]) -> (r: u64)
    requires
        targets@.len() <= 64,
        forall|i: int| 0 <= i < targets@.len() ==> #[trigger] targets@[i] < 64,
    ensures
        forall|j: int| 0 <= j < targets@.len() ==> bit(r, j as usize) == bit(index, #[trigger] targets@[j]),
        forall|j: int| targets@.len() <= j < 64 ==> !#[trigger] bit(r, j as usize),
{
    let mut r: u64 = 0;
    let mut j: usize = 0;
    proof {
        assert(0u64 >> 0u64 == 0) by (bit_vector);
    }
    while j < targets.len()
        invariant
            targets@.len() <= 64,
            forall|i: int| 0 <= i < targets@.len() ==> #[trigger] targets@[i] < 64,
            j <= targets@.len(),
            j < 64 ==> r >> (j as u64) == 0,
            forall|i: int| 0 <= i < j ==> bit(r, i as usize) == bit(index, #[trigger] targets@[i]),
        decreases targets.len() - j,
    {
        let t = targets[j];
        let b: u64 = (index >> (t as u64)) & 1;
        proof {
            assert(b <= 1) by (bit_vector)
                requires
                    b == (index >> (t as u64)) & 1,
            ;
            lemma_set_bit(r, b, j as u64, (j + 1) as u64);
        }
        let ghost old_r = r;
        r = r | (b << (j as u64));
        proof {
            assert forall|i: int| 0 <= i < j + 1 implies bit(r, i as usize) == bit(
                index,
                #[trigger] targets@[i],
            ) by {
                assert(((r >> (i as u64)) & 1) == if i as u64 == j as u64 {
                    b
                } else {
                    (old_r >> (i as u64)) & 1
                });
            }
        }
        j = j + 1;
    }
    proof {
        let len = targets@.len();
        assert forall|i: int| len <= i < 64 implies !#[trigger] bit(r, i as usize) by {
            let li = len as u64;
            let ii = i as u64;
            assert((r >> ii) & 1 == 0) by (bit_vector)
                requires
                    li <= ii,
                    ii < 64,
                    r >> li == 0,
            ;
        }
    }
    r
}

} // verus!
