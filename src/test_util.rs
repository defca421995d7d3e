use vstd::prelude::*;
use rand::rngs::SmallRng;
use rand::seq::SliceRandom;
use rand::{Rng, SeedableRng};
use crate::prelude::{search_key_of, KEY_SIZE, SEARCH_KEY_SIZE, VALUE_SIZE};

verus! {

/// The small, fast generator of the rand crate.
#[verifier::external_type_specification]
#[verifier::external_body]
pub struct ExSmallRng(SmallRng);

/// How the search keys of generated records are chosen.
#[derive(Debug, Clone, Copy, PartialEq, Eq, Structural)]
pub enum SearchKeyTypes {
    /// A random key per record.
    Random,
    /// Keys drawn from this many random values.
    Card(usize),
    /// Every record gets a different key.
    Distinct,
}

/// Relies on `SeedableRng::seed_from_u64`: a generator seeded from `seed`.
#[verifier::external_body]
pub fn gen_small_rng_with_seed(seed: u64) -> SmallRng {
    SmallRng::seed_from_u64(seed)
}

/// Relies on `Rng::gen::<u64>`: any 64-bit value.
#[verifier::external_body]
fn random_u64(rng: &mut SmallRng) -> u64 {
    rng.gen::<u64>()
}

/// Relies on `Rng::gen::<u8>`: any byte.
#[verifier::external_body]
fn random_byte(rng: &mut SmallRng) -> u8 {
    rng.gen::<u8>()
}

/// Relies on `Rng::gen_range`: a value of `0..n`; it panics on an empty range.
#[verifier::external_body]
fn random_below(rng: &mut SmallRng, n: usize) -> (r: usize)
    requires
        n > 0,
    ensures
        r < n,
{
    rng.gen_range(0..n)
}

/// Relies on `SliceRandom::shuffle`: the items are put in a random order.
#[verifier::external_body]
fn shuffle_u64s(v: &mut Vec<u64>, rng: &mut SmallRng)
    ensures
        final(v)@.to_multiset() == old(v)@.to_multiset(),
{
    v.shuffle(rng)
}

/// The eight big-endian bytes of `x`.
pub open spec fn be8(x: u64) -> Seq<u8> {
    seq![
        (x / 0x100000000000000) as u8,
        ((x / 0x1000000000000) % 256) as u8,
        ((x / 0x10000000000) % 256) as u8,
        ((x / 0x100000000) % 256) as u8,
        ((x / 0x1000000) % 256) as u8,
        ((x / 0x10000) % 256) as u8,
        ((x / 0x100) % 256) as u8,
        (x % 256) as u8,
    ]
}

/// Appends the eight big-endian bytes of `x` to `out`.
fn push_be8(out: &mut Vec<u8>, x: u64)
    ensures
        final(out)@ == old(out)@ + be8(x),
{
    out.push((x / 0x100000000000000) as u8);
    out.push(((x / 0x1000000000000) % 256) as u8);
    out.push(((x / 0x10000000000) % 256) as u8);
    out.push(((x / 0x100000000) % 256) as u8);
    out.push(((x / 0x1000000) % 256) as u8);
    out.push(((x / 0x10000) % 256) as u8);
    out.push(((x / 0x100) % 256) as u8);
    out.push((x % 256) as u8);
    assert(out@ =~= old(out)@ + be8(x));
}

/// The numbers `0..n`.
pub open spec fn first_numbers(n: nat) -> Seq<u64> {
    Seq::new(n, |i: int| i as u64)
}

/// `2 * (n / 2)` records with ascending keys: record `x` has the key made of
/// the big-endian bytes of `x / (n / 2)` and of `x % (n / 2)`. A value is
/// random bytes followed by the record's search key; the search keys are the
/// big-endian bytes of numbers chosen as `search_key` says: random, drawn
/// from `c` random numbers, or a random order of `0..n`, each used once.
pub fn gen_records_ascending_keys(n: usize, search_key: SearchKeyTypes, rng: &mut SmallRng) -> (r: Vec<(Vec<u8>, Vec<u8>)>)
    requires
        search_key matches SearchKeyTypes::Card(c) ==> c > 0 || n == 0,
    ensures
        r@.len() == 2 * (n / 2),
        forall|x: int| 0 <= x < r@.len() ==> {
            &&& (#[trigger] r@[x]).0@ == be8((x / (n / 2) as int) as u64) + be8((x % (n / 2) as int) as u64)
            &&& r@[x].1@.len() == VALUE_SIZE
        },
        exists|keys: Seq<u64>| {
            &&& keys.len() == n
            &&& forall|x: int| 0 <= x < r@.len() ==> search_key_of((#[trigger] r@[x]).1@) == be8(keys[x])
            &&& search_key == SearchKeyTypes::Distinct ==> keys.to_multiset() == first_numbers(n as nat).to_multiset()
            &&& search_key matches SearchKeyTypes::Card(c) ==> exists|cands: Seq<u64>| cands.len() == c
                && forall|x: int| 0 <= x < n ==> cands.contains(#[trigger] keys[x])
        },
{
    let mut candidates: Vec<u64> = Vec::new();
    match search_key {
        SearchKeyTypes::Random => {
            let mut i: usize = 0;
            while i < n
                invariant
                    i <= n,
                    candidates@.len() == i,
                decreases n - i,
            {
                candidates.push(random_u64(rng));
                i += 1;
            }
        },
        SearchKeyTypes::Card(card) => {
            let mut i: usize = 0;
            while i < card
                invariant
                    i <= card,
                    candidates@.len() == i,
                decreases card - i,
            {
                candidates.push(random_u64(rng));
                i += 1;
            }
        },
        SearchKeyTypes::Distinct => {
            let mut i: usize = 0;
            while i < n
                invariant
                    i <= n,
                    candidates@ == first_numbers(i as nat),
                decreases n - i,
            {
                candidates.push(i as u64);
                i += 1;
                proof {
                    assert(candidates@ =~= first_numbers(i as nat));
                }
            }
            shuffle_u64s(&mut candidates, rng);
        },
    }
    let ghost cands = candidates@;
    proof {
        broadcast use vstd::seq_lib::group_to_multiset_ensures;
    }
    let mut search_keys: Vec<u64> = Vec::new();
    proof {
        assert(search_keys@.reverse() =~= Seq::<u64>::empty());
        assert(candidates@ + search_keys@.reverse() =~= candidates@);
        if search_key == SearchKeyTypes::Distinct {
            assert(cands.len() == cands.to_multiset().len());
            assert(first_numbers(n as nat).len() == first_numbers(n as nat).to_multiset().len());
        }
    }
    let mut i: usize = 0;
    while i < n
        invariant
            i <= n,
            search_keys@.len() == i,
            search_key == SearchKeyTypes::Distinct ==> candidates@.len() == n - i && candidates@ + search_keys@.reverse() == cands,
            search_key != SearchKeyTypes::Distinct ==> candidates@ == cands,
            search_key matches SearchKeyTypes::Card(c) ==> cands.len() == c && (c > 0 || n == 0),
            search_key == SearchKeyTypes::Random ==> cands.len() == n,
            search_key != SearchKeyTypes::Distinct ==> forall|x: int| 0 <= x < i ==> cands.contains(#[trigger] search_keys@[x]),
            search_key == SearchKeyTypes::Distinct ==> cands.to_multiset() == first_numbers(n as nat).to_multiset(),
        decreases n - i,
    {
        if search_key == SearchKeyTypes::Distinct {
            let ghost before = search_keys@;
            let ghost cbefore = candidates@;
            let k = match candidates.pop() {
                Some(k) => k,
                None => 0,
            };
            search_keys.push(k);
            proof {
                assert(search_keys@.reverse() =~= seq![k] + before.reverse());
                assert(cbefore =~= candidates@.push(k));
                assert(candidates@ + search_keys@.reverse() =~= cbefore + before.reverse());
            }
        } else {
            let m = random_below(rng, candidates.len());
            search_keys.push(candidates[m]);
            proof {
                assert(cands.contains(cands[m as int]));
            }
        }
        i += 1;
    }
    let ghost keys = if search_key == SearchKeyTypes::Distinct { search_keys@ } else { search_keys@ };
    proof {
        if search_key == SearchKeyTypes::Distinct {
            assert(candidates@.len() == 0);
            assert(search_keys@.reverse() =~= cands) by {
                assert(candidates@ + search_keys@.reverse() =~= search_keys@.reverse());
            }
            search_keys@.lemma_reverse_to_multiset();
        }
    }
    let outer_loop: usize = KEY_SIZE / 8;
    let inner_loop: usize = n / outer_loop;
    let mut records: Vec<(Vec<u8>, Vec<u8>)> = Vec::with_capacity(n);
    let mut counter: usize = 0;
    let mut a: usize = 0;
    while a < outer_loop
        invariant
            outer_loop == 2,
            inner_loop == n / 2,
            a <= outer_loop,
            counter == a * inner_loop,
            counter <= n,
            search_keys@.len() == n,
            records@.len() == counter,
            forall|x: int| 0 <= x < counter ==> {
                &&& (#[trigger] records@[x]).0@ == be8((x / inner_loop as int) as u64) + be8((x % inner_loop as int) as u64)
                &&& records@[x].1@.len() == VALUE_SIZE
                &&& search_key_of(records@[x].1@) == be8(search_keys@[x])
            },
        decreases outer_loop - a,
    {
        let mut b: usize = 0;
        while b < inner_loop
            invariant
                outer_loop == 2,
                inner_loop == n / 2,
                a < outer_loop,
                b <= inner_loop,
                counter == a * inner_loop + b,
                counter <= n,
                search_keys@.len() == n,
                records@.len() == counter,
                forall|x: int| 0 <= x < counter ==> {
                    &&& (#[trigger] records@[x]).0@ == be8((x / inner_loop as int) as u64) + be8((x % inner_loop as int) as u64)
                    &&& records@[x].1@.len() == VALUE_SIZE
                    &&& search_key_of(records@[x].1@) == be8(search_keys@[x])
                },
            decreases inner_loop - b,
        {
            proof {
                assert(counter < n) by (nonlinear_arith)
                    requires counter == a * inner_loop + b, b < inner_loop, a < 2, inner_loop == n / 2;
            }
            let mut key: Vec<u8> = Vec::new();
            push_be8(&mut key, a as u64);
            push_be8(&mut key, b as u64);
            let mut value: Vec<u8> = Vec::new();
            let mut v: usize = 0;
            while v < VALUE_SIZE - SEARCH_KEY_SIZE
                invariant
                    v <= VALUE_SIZE - SEARCH_KEY_SIZE,
                    value@.len() == v,
                decreases VALUE_SIZE - SEARCH_KEY_SIZE - v,
            {
                value.push(random_byte(rng));
                v += 1;
            }
            push_be8(&mut value, search_keys[counter]);
            proof {
                assert(key@ =~= be8(a as u64) + be8(b as u64));
                assert(search_key_of(value@) =~= be8(search_keys@[counter as int]));
                let x = counter as int;
                assert(x / inner_loop as int == a && x % inner_loop as int == b) by (nonlinear_arith)
                    requires x == a * inner_loop + b, 0 <= b < inner_loop, a >= 0;
            }
            records.push((key, value));
            counter += 1;
            b += 1;
        }
        a += 1;
        proof {
            assert(counter == a * inner_loop) by (nonlinear_arith)
                requires counter == (a - 1) * inner_loop + inner_loop;
        }
    }
    proof {
        assert(2 * (n / 2) <= n) by (nonlinear_arith);
        if search_key matches SearchKeyTypes::Card(c) {
            assert(forall|x: int| 0 <= x < n ==> cands.contains(#[trigger] search_keys@[x]));
        }
        assert(forall|x: int| 0 <= x < records@.len() ==> search_key_of((#[trigger] records@[x]).1@) == be8(keys[x]));
    }
    records
}

} // verus!
