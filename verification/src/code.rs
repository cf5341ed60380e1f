//! A candidate or secret code, and its bijection with an integer "shift".

use vstd::prelude::*;

use vstd::arithmetic::div_mod::{
    lemma_div_denominator, lemma_div_pos_is_pos, lemma_fundamental_div_mod,
    lemma_fundamental_div_mod_converse, lemma_mod_bound,
};
use vstd::arithmetic::mul::{lemma_mul_inequality, lemma_mul_is_distributive_sub};
use vstd::arithmetic::power::{
    lemma0_pow, lemma_pow0, lemma_pow1, lemma_pow_adds, lemma_pow_increases, lemma_pow_positive,
    pow,
};

use crate::column::Column;
use crate::error::EnigmindError;
use crate::setup::GameConfiguration;

verus! {

/// The integer encoding of a digit sequence in a fixed positional numeral
/// system: `shift = sum of s[i] * base^(len-1-i)`, written Horner style.
pub open spec fn shift_of(s: Seq<u8>, base: int) -> int
    decreases s.len(),
{
    if s.len() == 0 {
        0
    } else {
        shift_of(s.drop_last(), base) * base + s.last()
    }
}

/// The digit sequence of length `cc` that encodes `shift` in base `base`.
pub open spec fn decode_spec(shift: int, base: int, cc: nat) -> Seq<u8> {
    Seq::new(cc, |i: int| ((shift / pow(base, (cc - 1 - i) as nat)) % base) as u8)
}

/// A code fits a configuration when it has one digit per column and every
/// digit is below the base.
pub open spec fn code_wf(s: Seq<u8>, gc: GameConfiguration) -> bool {
    &&& s.len() == gc.column_count
    &&& forall|i: int| 0 <= i < s.len() ==> s[i] < gc.base
}

/// One unfolding step of `pow`: `base^e == base * base^(e-1)`.
pub proof fn lemma_pow_unfold(b: int, e: nat)
    requires
        e >= 1,
    ensures
        pow(b, e) == b * pow(b, (e - 1) as nat),
{
    lemma_pow1(b);
    lemma_pow_adds(b, 1, (e - 1) as nat);
}

/// The value of two to the thirty-first power.
pub proof fn lemma_pow2_31()
    ensures
        pow(2, 31) == 0x8000_0000,
{
    vstd::arithmetic::power2::lemma2_to64();
    vstd::arithmetic::power2::lemma_pow2(31);
}

/// The shift of a digit sequence with digits below the base lies in
/// `[0, base^len)`.
pub proof fn lemma_shift_of_bound(s: Seq<u8>, base: int)
    requires
        base >= 1,
        forall|i: int| 0 <= i < s.len() ==> s[i] < base,
    ensures
        0 <= shift_of(s, base) < pow(base, s.len() as nat),
    decreases s.len(),
{
    if s.len() == 0 {
        lemma_pow0(base);
    } else {
        let d = s.drop_last();
        assert(forall|i: int| 0 <= i < d.len() ==> d[i] == s[i] && s[i] < base);
        lemma_shift_of_bound(d, base);
        let p = pow(base, d.len() as nat);
        assert(pow(base, s.len() as nat) == base * p) by {
            lemma_pow_unfold(base, s.len() as nat);
        }
        assert(shift_of(d, base) * base <= (p - 1) * base) by {
            lemma_mul_inequality(shift_of(d, base), p - 1, base);
        }
        assert((p - 1) * base == p * base - 1 * base) by {
            lemma_mul_is_distributive_sub(base, p, 1);
        }
        assert(s.last() < base);
        assert(shift_of(s, base) < p * base);
        assert(shift_of(s, base) >= 0) by {
            lemma_mul_inequality(0, shift_of(d, base), base);
        }
    }
}

/// Law: for every base and length, decoding a shift in `[0, base^len)` and
/// encoding the resulting digits gives back the same shift.
pub proof fn lemma_decode_then_encode(shift: int, base: int, cc: nat)
    requires
        1 <= base <= 256,
        0 <= shift < pow(base, cc),
    ensures
        shift_of(decode_spec(shift, base, cc), base) == shift,
    decreases cc,
{
    let s = decode_spec(shift, base, cc);
    if cc == 0 {
        lemma_pow0(base);
    } else {
        lemma_pow0(base);
        assert(s.last() == ((shift / 1) % base) as u8);
        assert(shift / 1 == shift);
        lemma_mod_bound(shift, base);
        assert(s.last() == shift % base);
        let q = shift / base;
        lemma_div_pos_is_pos(shift, base);
        assert(q < pow(base, (cc - 1) as nat)) by {
            lemma_pow_unfold(base, cc);
            if q >= pow(base, (cc - 1) as nat) {
                lemma_fundamental_div_mod(shift, base);
                lemma_mod_bound(shift, base);
                lemma_mul_inequality(pow(base, (cc - 1) as nat), q, base);
            }
        }
        assert(s.drop_last() =~= decode_spec(q, base, (cc - 1) as nat)) by {
            assert forall|i: int| 0 <= i < cc - 1 implies s[i] == decode_spec(
                q,
                base,
                (cc - 1) as nat,
            )[i] by {
                let e = (cc - 2 - i) as nat;
                lemma_pow_positive(base, e);
                lemma_div_denominator(shift, base, pow(base, e));
                assert(base * pow(base, e) == pow(base, (e + 1) as nat)) by {
                    lemma_pow_unfold(base, (e + 1) as nat);
                }
                assert((cc - 1 - i) as nat == (e + 1) as nat);
            }
        }
        lemma_decode_then_encode(q, base, (cc - 1) as nat);
        lemma_fundamental_div_mod(shift, base);
        assert(shift_of(s, base) == q * base + shift % base);
    }
}

/// Law: encoding a digit sequence with digits below the base and decoding
/// the resulting shift gives back the same digits.
pub proof fn lemma_encode_then_decode(s: Seq<u8>, base: int)
    requires
        1 <= base <= 256,
        forall|i: int| 0 <= i < s.len() ==> s[i] < base,
    ensures
        decode_spec(shift_of(s, base), base, s.len() as nat) == s,
    decreases s.len(),
{
    let cc = s.len() as nat;
    let sh = shift_of(s, base);
    let r = decode_spec(sh, base, cc);
    if s.len() == 0 {
        assert(r =~= s);
    } else {
        let d = s.drop_last();
        assert(forall|i: int| 0 <= i < d.len() ==> d[i] == s[i] && s[i] < base);
        let shd = shift_of(d, base);
        lemma_shift_of_bound(d, base);
        lemma_fundamental_div_mod_converse(sh, base, shd, s.last() as int);
        lemma_encode_then_decode(d, base);
        assert forall|i: int| 0 <= i < cc implies r[i] == s[i] by {
            if i == cc - 1 {
                lemma_pow0(base);
                assert(r[i] == ((sh / 1) % base) as u8);
                assert(sh / 1 == sh);
                assert(sh % base == s.last());
            } else {
                let e = (cc - 2 - i) as nat;
                lemma_pow_positive(base, e);
                lemma_div_denominator(sh, base, pow(base, e));
                assert(base * pow(base, e) == pow(base, (e + 1) as nat)) by {
                    lemma_pow_unfold(base, (e + 1) as nat);
                }
                assert((cc - 1 - i) as nat == (e + 1) as nat);
                assert(sh / pow(base, (cc - 1 - i) as nat) == shd / pow(base, e));
                assert(decode_spec(shd, base, (cc - 1) as nat)[i] == d[i]);
            }
        }
        assert(r =~= s);
    }
}

/// `base^exp` as a machine integer.
pub fn pow_u32(base: u8, exp: u8) -> (r: u32)
    requires
        pow(base as int, exp as nat) <= u32::MAX,
    ensures
        r == pow(base as int, exp as nat),
{
    let mut r: u32 = 1;
    let mut e: u8 = 0;
    proof {
        lemma_pow0(base as int);
    }
    while e < exp
        invariant
            e <= exp,
            r == pow(base as int, e as nat),
            pow(base as int, exp as nat) <= u32::MAX,
        decreases exp - e,
    {
        proof {
            lemma_pow_unfold(base as int, (e + 1) as nat);
            assert(pow(base as int, (e + 1) as nat) == base as int * pow(base as int, e as nat));
            assert(r as int * base as int == base as int * pow(base as int, e as nat));
            if base == 0 {
                lemma0_pow((e + 1) as nat);
            } else {
                lemma_pow_increases(base as nat, (e + 1) as nat, exp as nat);
            }
            assert(r as int * base as int <= u32::MAX);
        }
        r = r * (base as u32);
        e = e + 1;
    }
    r
}

/// An ordered sequence of digit values: a candidate solution or the secret
/// code.
#[derive(Debug)]
pub struct Code(pub Vec<u8>);

impl View for Code {
    type V = Seq<u8>;

    open spec fn view(&self) -> Seq<u8> {
        self.0@
    }
}

impl Clone for Code {
    /// A cloned code has the same digits.
    fn clone(&self) -> (r: Self)
        ensures
            r@ == self@,
    {
        let mut v: Vec<u8> = Vec::new();
        let mut i: usize = 0;
        while i < self.0.len()
            invariant
                i <= self.0.len(),
                v@ =~= self.0@.take(i as int),
            decreases self.0.len() - i,
        {
            v.push(self.0[i]);
            i = i + 1;
        }
        assert(v@ =~= self.0@);
        Code(v)
    }
}

impl Code {
    /// A code over the given digits.
    pub fn new(v: Vec<u8>) -> (r: Self)
        ensures
            r@ == v@,
    {
        Code(v)
    }

    /// The digit at the given column; fails when the column is not present.
    pub fn get(&self, c: Column) -> (r: Result<u8, EnigmindError>)
        ensures
            c.0 < self@.len() ==> r == Ok::<u8, EnigmindError>(self@[c.0 as int]),
            c.0 >= self@.len() ==> r == Err::<u8, EnigmindError>(
                EnigmindError::ColumnIndexOutOfBounds,
            ),
    {
        let index = c.0 as usize;
        if index < self.0.len() {
            Ok(self.0[index])
        } else {
            Err(EnigmindError::ColumnIndexOutOfBounds)
        }
    }

    /// The shift that encodes this code for the given configuration.
    pub fn get_shift(&self, gc: &GameConfiguration) -> (r: u32)
        requires
            code_wf(self@, *gc),
            gc.solution_count_spec() <= u32::MAX,
        ensures
            r == shift_of(self@, gc.base as int),
            0 <= shift_of(self@, gc.base as int) < gc.solution_count_spec(),
    {
        let base = gc.base as u32;
        let mut shift: u32 = 0;
        let mut i: usize = 0;
        proof {
            lemma_pow0(gc.base as int);
        }
        while i < self.0.len()
            invariant
                i <= self.0.len(),
                code_wf(self@, *gc),
                gc.solution_count_spec() <= u32::MAX,
                i > 0 ==> gc.base >= 1,
                base == gc.base,
                shift == shift_of(self@.take(i as int), gc.base as int),
                shift < pow(gc.base as int, i as nat),
            decreases self.0.len() - i,
        {
            proof {
                let b = gc.base as int;
                assert(self@[i as int] < gc.base);
                let pre = self@.take(i as int);
                let nxt = self@.take(i + 1int);
                assert(nxt.drop_last() =~= pre);
                assert(nxt.last() == self@[i as int]);
                assert(forall|j: int| 0 <= j < nxt.len() ==> nxt[j] < gc.base);
                assert(shift_of(nxt, b) == shift_of(pre, b) * b + self@[i as int]);
                lemma_shift_of_bound(nxt, b);
                lemma_pow_increases(gc.base as nat, (i + 1) as nat, self@.len() as nat);
                assert(pow(b, (i + 1) as nat) <= pow(b, self@.len() as nat));
            }
            shift = shift * base + (self.0[i] as u32);
            i = i + 1;
        }
        proof {
            assert(self@.take(self@.len() as int) =~= self@);
            if self.0.len() > 0 {
                assert(self@[0] < gc.base);
                lemma_shift_of_bound(self@, gc.base as int);
            } else {
                lemma_pow0(gc.base as int);
            }
        }
        shift
    }

    /// The code that the given shift decodes to for the configuration.
    pub fn from_shift(shift: u32, gc: &GameConfiguration) -> (r: Self)
        requires
            gc.base >= 1,
            gc.solution_count_spec() <= u32::MAX,
        ensures
            r@ == decode_spec(shift as int, gc.base as int, gc.column_count as nat),
            r@.len() == gc.column_count,
            forall|i: int| 0 <= i < r@.len() ==> r@[i] < gc.base,
    {
        let cc = gc.column_count;
        let b = gc.base as u32;
        let mut v: Vec<u8> = Vec::new();
        let mut i: u8 = 0;
        while i < cc
            invariant
                i <= cc,
                gc.base >= 1,
                b == gc.base,
                cc == gc.column_count,
                gc.solution_count_spec() <= u32::MAX,
                v@.len() == i,
                forall|j: int|
                    0 <= j < i ==> v@[j] == ((shift as int / pow(
                        gc.base as int,
                        (cc - 1 - j) as nat,
                    )) % gc.base as int) as u8,
            decreases cc - i,
        {
            let e = cc - 1 - i;
            proof {
                lemma_pow_increases(gc.base as nat, e as nat, cc as nat);
                assert(gc.base as nat as int == gc.base as int);
                assert(pow(gc.base as int, e as nat) <= gc.solution_count_spec());
                lemma_pow_positive(gc.base as int, e as nat);
            }
            let p = pow_u32(gc.base, e);
            let digit = ((shift / p) % b) as u8;
            proof {
                lemma_div_pos_is_pos(shift as int, p as int);
                lemma_mod_bound(shift as int / p as int, gc.base as int);
            }
            v.push(digit);
            i = i + 1;
        }
        let r = Code(v);
        proof {
            assert(r@ =~= decode_spec(shift as int, gc.base as int, gc.column_count as nat));
            assert forall|j: int| 0 <= j < r@.len() implies r@[j] < gc.base by {
                let e = (cc - 1 - j) as nat;
                lemma_pow_positive(gc.base as int, e);
                lemma_mod_bound(shift as int / pow(gc.base as int, e), gc.base as int);
            }
        }
        r
    }

    /// The decimal digits of a number, most significant first; zero gives an
    /// empty code.
    pub fn from_decimal(code: u32) -> (r: Self)
        ensures
            r@ == dec_digits(code as int),
    {
        let mut c = code;
        let mut v: Vec<u8> = Vec::new();
        while c > 0
            invariant
                dec_digits(code as int) =~= dec_digits(c as int) + v@.reverse(),
            decreases c,
        {
            proof {
                let cur = c as int;
                lemma_fundamental_div_mod(cur, 10);
                lemma_mod_bound(cur, 10);
                lemma_div_pos_is_pos(cur, 10);
                assert(dec_digits(cur) == dec_digits(cur / 10).push((cur % 10) as u8));
                assert(dec_digits(cur / 10).push((cur % 10) as u8) + v@.reverse() =~= dec_digits(
                    cur / 10,
                ) + v@.push((cur % 10) as u8).reverse());
            }
            v.push((c % 10) as u8);
            c = c / 10;
        }
        let mut out: Vec<u8> = Vec::new();
        let mut i: usize = v.len();
        while i > 0
            invariant
                i <= v@.len(),
                out@ =~= v@.skip(i as int).reverse(),
            decreases i,
        {
            i = i - 1;
            proof {
                assert(v@.skip(i as int) =~= seq![v@[i as int]] + v@.skip(i + 1int));
                assert(v@.skip(i as int).reverse() =~= v@.skip(i + 1int).reverse().push(
                    v@[i as int],
                ));
            }
            out.push(v[i]);
        }
        proof {
            assert(v@.skip(0) =~= v@);
            assert(dec_digits(0int) =~= Seq::<u8>::empty());
            assert(dec_digits(code as int) =~= out@);
        }
        Code(out)
    }
}

/// The decimal digits of a nonnegative number, most significant first; zero
/// has no digits.
pub open spec fn dec_digits(c: int) -> Seq<u8>
    decreases c,
{
    if c <= 0 {
        Seq::empty()
    } else {
        dec_digits(c / 10).push((c % 10) as u8)
    }
}

} // verus!
