//! Fresh-name generation: a base name extended with a separator and a
//! decimal serial. The process-wide counter that feeds the serial lives
//! with the caller; the renaming itself is pure.

use vstd::prelude::*;

use crate::ir_writer::dec_digits;

verus! {

/// The decimal spelling of a machine word.
pub fn u64_to_decimal(n: u64) -> (r: Vec<u8>)
    ensures
        r@ == dec_digits(n as nat),
{
    let mut collected: Vec<u8> = Vec::new();
    let mut cur = n;
    proof {
        assert(collected@.reverse() =~= Seq::<u8>::empty());
        assert(dec_digits(n as nat) =~= dec_digits(cur as nat) + collected@.reverse());
    }
    while cur >= 10
        invariant
            dec_digits(n as nat) == dec_digits(cur as nat) + collected@.reverse(),
        decreases cur,
    {
        let d = (0x30 + cur % 10) as u8;
        let ghost coll_pre = collected@;
        collected.push(d);
        cur = cur / 10;
        proof {
            assert(collected@.reverse() =~= seq![d] + coll_pre.reverse());
            assert(dec_digits(n as nat) =~= dec_digits(cur as nat) + collected@.reverse());
        }
    }
    let mut out: Vec<u8> = Vec::new();
    out.push((0x30 + cur % 10) as u8);
    proof {
        assert(cur % 10 == cur as nat);
        assert(dec_digits(cur as nat) == seq![(0x30 + cur % 10) as u8]);
        assert(out@ =~= dec_digits(cur as nat));
    }
    proof {
        assert(collected@.reverse().subrange(0, 0) =~= Seq::<u8>::empty());
        assert(out@ =~= dec_digits(cur as nat) + collected@.reverse().subrange(0, 0));
    }
    let k = collected.len();
    let mut i: usize = 0;
    while i < k
        invariant
            i <= k,
            k == collected@.len(),
            cur < 10,
            dec_digits(n as nat) == dec_digits(cur as nat) + collected@.reverse(),
            out@.len() == 1 + i,
            out@ == dec_digits(cur as nat) + collected@.reverse().subrange(0, i as int),
        decreases k - i,
    {
        let d = collected[k - 1 - i];
        proof {
            assert(collected@.reverse()[i as int] == collected@[k - 1 - i]);
            assert(collected@.reverse().subrange(0, i + 1) =~= collected@.reverse().subrange(
                0,
                i as int,
            ).push(collected@.reverse()[i as int]));
        }
        out.push(d);
        i = i + 1;
    }
    proof {
        assert(collected@.reverse().subrange(0, k as int) =~= collected@.reverse());
        assert(out@ =~= dec_digits(n as nat));
    }
    out
}

/// Extend a name with the separator and the next serial number.
pub fn gensym(name: Vec<u8>, count: u64) -> (r: Vec<u8>)
    requires
        count < u64::MAX,
    ensures
        r@ == name@ + seq!['_' as u8, '$' as u8, '_' as u8] + dec_digits((count + 1) as nat),
{
    let ghost base = name@;
    let mut result_vec = name;
    result_vec.push('_' as u8);
    result_vec.push('$' as u8);
    result_vec.push('_' as u8);
    let mut digits = u64_to_decimal(count + 1);
    let ghost ds = digits@;
    result_vec.append(&mut digits);
    proof {
        assert(result_vec@ =~= base + seq!['_' as u8, '$' as u8, '_' as u8] + ds);
    }
    result_vec
}

} // verus!
