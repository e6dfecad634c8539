//! Maglev consistent-hashing table construction.
//!
//! Each backend gets a pseudo-random permutation of the `M` table slots derived
//! from two hashes of its key. The table is then filled round-robin, each
//! backend claiming the first still-free slot of its own permutation.

use vstd::prelude::*;
use vstd::arithmetic::div_mod::*;
use vstd::arithmetic::mul::*;
use vstd::set_lib::*;
use vstd::utf8::encode_utf8;
use crate::common::M;
use crate::prime::table_size_divides_factor;

verus! {

pub const SEED_OFFSET: u64 = 0xDEAD_BEEF;

pub const SEED_SKIP: u64 = 0xCAFE_BABE;

/// The value of `xxhash_rust::xxh3::xxh3_64_with_seed` on `data` and `seed`.
pub uninterp spec fn xxh3_64(data: Seq<u8>, seed: u64) -> u64;

/// Calls `xxhash_rust::xxh3::xxh3_64_with_seed`. The hash is taken to be a
/// function of the bytes and the seed alone; nothing is claimed of its value.
#[verifier::external_body]
fn xxh3_64_with_seed(data: &[u8], seed: u64) -> (hash: u64)
    ensures
        hash == xxh3_64(data@, seed),
{
    xxhash_rust::xxh3::xxh3_64_with_seed(data, seed)
}

/// `(offset, skip)` of a permutation whose two hashes are given.
pub open spec fn params_of(offset_hash: u64, skip_hash: u64) -> (usize, usize) {
    (
        ((offset_hash as usize) as int % (M as int)) as usize,
        ((skip_hash as usize) as int % (M - 1) + 1) as usize,
    )
}

/// `(offset, skip)` of the permutation that belongs to a backend key.
pub open spec fn key_params(key: Seq<char>) -> (usize, usize) {
    params_of(
        xxh3_64(encode_utf8(key), SEED_OFFSET),
        xxh3_64(encode_utf8(key), SEED_SKIP),
    )
}

/// Whether `(offset, skip)` defines a permutation of the table slots.
pub open spec fn valid_params(p: (usize, usize)) -> bool {
    &&& p.0 < M
    &&& 1 <= p.1 < M
}

/// The slot that comes `k`-th in the permutation `(offset, skip)`.
pub open spec fn slot_at(p: (usize, usize), k: int) -> int {
    (p.0 + k * p.1) % (M as int)
}

/// `k` is the earliest position of the permutation whose slot is still free.
pub open spec fn is_first_free(entry: Seq<u32>, p: (usize, usize), k: int) -> bool {
    &&& 0 <= k < M
    &&& entry[slot_at(p, k)] == u32::MAX
    &&& forall|i: int| 0 <= i < k ==> entry[#[trigger] slot_at(p, i)] != u32::MAX
}

pub open spec fn first_free(entry: Seq<u32>, p: (usize, usize)) -> int {
    choose|k: int| is_first_free(entry, p, k)
}

/// The table after `turns` round-robin turns: on each turn one backend claims
/// the first free slot of its permutation. Free slots hold `u32::MAX`.
pub open spec fn claimed(params: Seq<(usize, usize)>, turns: nat) -> Seq<u32>
    decreases turns,
{
    if turns == 0 {
        Seq::new(M as nat, |i: int| u32::MAX)
    } else {
        let before = claimed(params, (turns - 1) as nat);
        let j = (turns - 1) % params.len() as int;
        before.update(slot_at(params[j], first_free(before, params[j])), j as u32)
    }
}

/// The finished table: `M` turns, or none at all when there are no backends.
pub open spec fn maglev_table(params: Seq<(usize, usize)>) -> Seq<u32> {
    if params.len() == 0 {
        claimed(params, 0)
    } else {
        claimed(params, M as nat)
    }
}

/// The permutations of a list of backend keys.
pub open spec fn keys_params(keys: Seq<Seq<char>>) -> Seq<(usize, usize)> {
    keys.map_values(|key: Seq<char>| key_params(key))
}

/// The slots that hold local backend index `j`.
pub open spec fn slots_of(entry: Seq<u32>, j: int) -> Set<int> {
    Set::new(|c: int| 0 <= c < entry.len() && entry[c] == j)
}

/// How many of the first `turns` turns fall to backend `j` of `n`.
pub open spec fn turns_of(n: int, j: int, turns: int) -> int {
    turns / n + (if j < turns % n {
        1int
    } else {
        0
    })
}

proof fn lemma_slot_range(p: (usize, usize), k: int)
    ensures
        0 <= slot_at(p, k) < M,
{
    lemma_mod_bound(p.0 + k * p.1, M as int);
}

/// Law: a permutation visits no slot twice among its first `M` positions.
pub proof fn permutation_is_injective(p: (usize, usize), i: int, k: int)
    requires
        valid_params(p),
        0 <= i < M,
        0 <= k < M,
        slot_at(p, i) == slot_at(p, k),
    ensures
        i == k,
{
    let m = M as int;
    let (lo, hi) = if i <= k {
        (i, k)
    } else {
        (k, i)
    };
    let a = p.0 + lo * p.1;
    let b = p.0 + hi * p.1;
    lemma_mod_equivalence(b, a, m);
    assert(b - a == p.1 * (hi - lo)) by (nonlinear_arith)
        requires
            a == p.0 + lo * p.1,
            b == p.0 + hi * p.1,
    ;
    table_size_divides_factor(p.1 as int, hi - lo);
    lemma_small_mod((hi - lo) as nat, m as nat);
}

/// Law: a permutation visits every slot within its first `M` positions.
pub proof fn permutation_is_surjective(p: (usize, usize), c: int) -> (k: int)
    requires
        valid_params(p),
        0 <= c < M,
    ensures
        0 <= k < M,
        slot_at(p, k) == c,
{
    let visited = Seq::new(M as nat, |k: int| slot_at(p, k));
    let range = set_int_range(0, M as int);
    lemma_int_range(0, M as int);
    assert(visited.no_duplicates()) by {
        assert forall|i: int, k: int|
            0 <= i < visited.len() && 0 <= k < visited.len() && i != k implies visited[i]
            != visited[k] by {
            if visited[i] == visited[k] {
                permutation_is_injective(p, i, k);
            }
        }
    }
    visited.unique_seq_to_set();
    assert(visited.to_set().subset_of(range)) by {
        assert forall|x: int| visited.to_set().contains(x) implies range.contains(x) by {
            let k = choose|k: int| 0 <= k < visited.len() && visited[k] == x;
            lemma_slot_range(p, k);
        }
    }
    lemma_subset_equality(visited.to_set(), range);
    assert(visited.to_set().contains(c));
    let k = choose|k: int| 0 <= k < visited.len() && visited[k] == c;
    k
}

/// If the permutation reaches a free slot at position `k`, it has a first one.
proof fn lemma_first_free_exists(entry: Seq<u32>, p: (usize, usize), k: int)
    requires
        0 <= k < M,
        entry[slot_at(p, k)] == u32::MAX,
    ensures
        is_first_free(entry, p, first_free(entry, p)),
        first_free(entry, p) <= k,
    decreases k,
{
    if exists|i: int| 0 <= i < k && entry[#[trigger] slot_at(p, i)] == u32::MAX {
        let i = choose|i: int| 0 <= i < k && entry[#[trigger] slot_at(p, i)] == u32::MAX;
        lemma_first_free_exists(entry, p, i);
    } else {
        assert(is_first_free(entry, p, k));
        let f = first_free(entry, p);
        assert(is_first_free(entry, p, f));
        if f > k {
            assert(entry[slot_at(p, k)] != u32::MAX);
        }
    }
}

proof fn lemma_first_free_unique(entry: Seq<u32>, p: (usize, usize), k: int)
    requires
        is_first_free(entry, p, k),
    ensures
        first_free(entry, p) == k,
{
    let f = first_free(entry, p);
    assert(is_first_free(entry, p, f));
    if f < k {
        assert(entry[slot_at(p, f)] != u32::MAX);
    } else if k < f {
        assert(entry[slot_at(p, k)] != u32::MAX);
    }
}

proof fn lemma_slots_finite(entry: Seq<u32>, j: int)
    ensures
        slots_of(entry, j).finite(),
        slots_of(entry, j).len() <= entry.len(),
{
    let range = set_int_range(0, entry.len() as int);
    lemma_int_range(0, entry.len() as int);
    assert(slots_of(entry, j).subset_of(range));
    lemma_len_subset(slots_of(entry, j), range);
}

proof fn lemma_turns_step(n: int, j: int, turns: int)
    requires
        n > 0,
        0 <= j < n,
        turns >= 0,
    ensures
        turns_of(n, j, turns + 1) == turns_of(n, j, turns) + (if j == turns % n {
            1int
        } else {
            0
        }),
{
    let q = turns / n;
    let r = turns % n;
    lemma_fundamental_div_mod(turns, n);
    lemma_mod_bound(turns, n);
    lemma_mul_is_commutative(q, n);
    if r + 1 < n {
        lemma_fundamental_div_mod_converse(turns + 1, n, q, r + 1);
    } else {
        assert((q + 1) * n == q * n + n) by (nonlinear_arith);
        lemma_fundamental_div_mod_converse(turns + 1, n, q + 1, 0);
    }
}

/// What holds of the table after any number of turns up to `M`.
proof fn lemma_claimed(params: Seq<(usize, usize)>, turns: nat)
    requires
        params.len() > 0,
        forall|j: int| 0 <= j < params.len() ==> valid_params(#[trigger] params[j]),
        turns <= M,
    ensures
        claimed(params, turns).len() == M,
        slots_of(claimed(params, turns), u32::MAX as int).len() == M - turns,
        forall|c: int|
            0 <= c < M ==> {
                ||| #[trigger] claimed(params, turns)[c] == u32::MAX
                ||| claimed(params, turns)[c] < params.len() && claimed(params, turns)[c] < turns
            },
        forall|j: int|
            0 <= j < params.len() && j < M ==> #[trigger] slots_of(
                claimed(params, turns),
                j,
            ).len() == turns_of(params.len() as int, j, turns as int),
        turns < M ==> ({
            let p = params[turns as int % params.len() as int];
            is_first_free(claimed(params, turns), p, first_free(claimed(params, turns), p))
        }),
    decreases turns,
{
    let n = params.len() as int;
    let entry = claimed(params, turns);
    let empty = u32::MAX as int;
    lemma_mod_bound(turns as int, n);
    if turns == 0 {
        let range = set_int_range(0, M as int);
        lemma_int_range(0, M as int);
        assert(slots_of(entry, empty) =~= range);
        assert forall|j: int| 0 <= j < n && j < M implies #[trigger] slots_of(entry, j).len()
            == turns_of(n, j, 0) by {
            assert(slots_of(entry, j) =~= Set::<int>::empty());
            lemma_div_of0(n);
            lemma_small_mod(0, n as nat);
        }
    } else {
        let t = (turns - 1) as nat;
        let before = claimed(params, t);
        lemma_claimed(params, t);
        lemma_mod_bound(t as int, n);
        let who = t as int % n;
        lemma_mod_decreases(t, n as nat);
        let p = params[who];
        let k = first_free(before, p);
        let c = slot_at(p, k);
        lemma_slot_range(p, k);
        assert(entry == before.update(c, who as u32));
        assert(slots_of(entry, empty) =~= slots_of(before, empty).remove(c));
        lemma_slots_finite(before, empty);
        assert(slots_of(before, empty).contains(c));
        assert forall|j: int| 0 <= j < n && j < M implies #[trigger] slots_of(entry, j).len()
            == turns_of(n, j, turns as int) by {
            lemma_turns_step(n, j, t as int);
            lemma_slots_finite(before, j);
            let old_len = slots_of(before, j).len();
            assert(old_len == turns_of(n, j, t as int));
            if j == who {
                assert(slots_of(entry, j) =~= slots_of(before, j).insert(c));
                assert(!slots_of(before, j).contains(c));
            } else {
                assert(slots_of(entry, j) =~= slots_of(before, j));
            }
        }
        assert forall|x: int| 0 <= x < M implies {
            ||| #[trigger] entry[x] == u32::MAX
            ||| entry[x] < params.len() && entry[x] < turns
        } by {
            if x != c {
                assert(entry[x] == before[x]);
            }
        }
    }
    if turns < M {
        let free = slots_of(entry, empty);
        let p = params[turns as int % n];
        assert(valid_params(p));
        lemma_slots_finite(entry, empty);
        assert(free.len() > 0);
        let c = free.choose();
        assert(free.contains(c));
        let k = permutation_is_surjective(p, c);
        lemma_first_free_exists(entry, p, k);
    }
}

/// Law: with at least one backend no slot stays empty, and every slot names an
/// existing backend.
pub proof fn every_slot_is_owned(params: Seq<(usize, usize)>, c: int)
    requires
        params.len() > 0,
        forall|j: int| 0 <= j < params.len() ==> valid_params(#[trigger] params[j]),
        0 <= c < M,
    ensures
        maglev_table(params).len() == M,
        maglev_table(params)[c] < params.len(),
        maglev_table(params)[c] != u32::MAX,
{
    let entry = maglev_table(params);
    lemma_claimed(params, M as nat);
    lemma_slots_finite(entry, u32::MAX as int);
    if entry[c] == u32::MAX {
        assert(slots_of(entry, u32::MAX as int).contains(c));
        assert(slots_of(entry, u32::MAX as int) =~= Set::<int>::empty());
    }
}

/// Law: the slots are shared out evenly. Each backend owns `M / n` of them, and
/// the first `M % n` backends own one more.
pub proof fn slots_are_evenly_shared(params: Seq<(usize, usize)>, j: int)
    requires
        params.len() > 0,
        forall|i: int| 0 <= i < params.len() ==> valid_params(#[trigger] params[i]),
        0 <= j < params.len(),
    ensures
        slots_of(maglev_table(params), j).len() == (M as int) / (params.len() as int) + (if j < (
        M as int) % (params.len() as int) {
            1int
        } else {
            0
        }),
{
    let n = params.len() as int;
    lemma_claimed(params, M as nat);
    if j >= M {
        let entry = maglev_table(params);
        assert(slots_of(entry, j) =~= Set::<int>::empty()) by {
            assert forall|c: int| !slots_of(entry, j).contains(c) by {
                if 0 <= c < entry.len() && entry[c] == j {
                    every_slot_is_owned(params, c);
                    assert(entry[c] < M);
                }
            }
        }
        lemma_small_mod(M as nat, n as nat);
        lemma_basic_div(M as int, n);
    }
}

/// Law: the permutation derived from any two hashes is a valid one.
pub proof fn derived_params_are_valid(offset_hash: u64, skip_hash: u64)
    ensures
        valid_params(params_of(offset_hash, skip_hash)),
{
    lemma_mod_bound((offset_hash as usize) as int, M as int);
    lemma_mod_bound((skip_hash as usize) as int, M - 1);
}

/// Law: every key has a valid permutation.
pub proof fn key_params_are_valid(key: Seq<char>)
    ensures
        valid_params(key_params(key)),
{
    derived_params_are_valid(
        xxh3_64(encode_utf8(key), SEED_OFFSET),
        xxh3_64(encode_utf8(key), SEED_SKIP),
    );
}

/// The permutation parameters for a backend whose key hashes to `offset_hash`
/// and `skip_hash` under the two seeds.
pub fn params_from_hashes(offset_hash: u64, skip_hash: u64) -> (p: (usize, usize))
    ensures
        p == params_of(offset_hash, skip_hash),
        valid_params(p),
{
    let m: usize = M as usize;
    let offset: usize = (offset_hash as usize) % m;
    let skip: usize = (skip_hash as usize) % (m - 1) + 1;
    proof {
        derived_params_are_valid(offset_hash, skip_hash);
    }
    (offset, skip)
}

/// `(offset, skip)` defining a backend's permutation:
/// `perm(k) = (offset + k * skip) % M`.
pub fn permutation_params(key: &str) -> (p: (usize, usize))
    ensures
        p == key_params(key@),
        valid_params(p),
{
    let offset_hash: u64 = xxh3_64_with_seed(key.as_bytes(), SEED_OFFSET);
    let skip_hash: u64 = xxh3_64_with_seed(key.as_bytes(), SEED_SKIP);
    params_from_hashes(offset_hash, skip_hash)
}

/// Fill the lookup table from the backends' permutations.
///
/// Returns a vector of length `M` mapping each slot to the *local* index of the
/// owning backend. Empty slots (only possible when there are no backends) are
/// marked with `u32::MAX`.
pub fn fill_table(params: &[(usize, usize)]) -> (entry: Vec<u32>)
    requires
        forall|j: int| 0 <= j < params@.len() ==> valid_params(#[trigger] params@[j]),
    ensures
        entry@ == maglev_table(params@),
        entry@.len() == M,
        params@.len() == 0 ==> forall|c: int| 0 <= c < M ==> #[trigger] entry@[c] == u32::MAX,
        params@.len() > 0 ==> forall|c: int| 0 <= c < M ==> #[trigger] entry@[c] < params@.len(),
{
    let m: usize = M as usize;
    let mut entry: Vec<u32> = vec![u32::MAX; m];
    let n: usize = params.len();
    assert(entry@ =~= claimed(params@, 0));
    if n == 0 {
        return entry;
    }
    let mut next: Vec<usize> = vec![0; n];
    let mut filled: usize = 0;
    let ghost mut round: int = 0;
    while filled < m
        invariant
            m == M,
            n == params@.len(),
            n > 0,
            forall|j: int| 0 <= j < n ==> valid_params(#[trigger] params@[j]),
            filled <= m,
            filled < m ==> filled == round * n,
            entry@ == claimed(params@, filled as nat),
            next@.len() == n,
            forall|j: int| 0 <= j < n ==> #[trigger] next@[j] <= M,
            forall|j: int, i: int|
                0 <= j < n && 0 <= i < next@[j] ==> entry@[#[trigger] slot_at(params@[j], i)]
                    != u32::MAX,
        decreases m - filled,
    {
        let mut j: usize = 0;
        while j < n && filled < m
            invariant
                m == M,
                n == params@.len(),
                n > 0,
                forall|j: int| 0 <= j < n ==> valid_params(#[trigger] params@[j]),
                filled <= m,
                j <= n,
                j > 0 || filled < m,
                filled == round * n + j,
                entry@ == claimed(params@, filled as nat),
                next@.len() == n,
                forall|j: int| 0 <= j < n ==> #[trigger] next@[j] <= M,
                forall|j: int, i: int|
                    0 <= j < n && 0 <= i < next@[j] ==> entry@[#[trigger] slot_at(params@[j], i)]
                        != u32::MAX,
            decreases n - j,
        {
            let (offset, skip) = params[j];
            let ghost p = params@[j as int];
            proof {
                lemma_claimed(params@, filled as nat);
                lemma_fundamental_div_mod_converse(filled as int, n as int, round, j as int);
                let k = first_free(entry@, p);
                assert(is_first_free(entry@, p, k));
                if k < next@[j as int] {
                    assert(entry@[slot_at(p, k)] != u32::MAX);
                }
            }
            let mut position: usize = next[j];
            let mut c: usize = permuted_slot(offset, skip, position);
            while entry[c] != u32::MAX
                invariant
                    m == M,
                    entry@.len() == M,
                    p == (offset, skip),
                    valid_params(p),
                    c == slot_at(p, position as int),
                    c < M,
                    position < M,
                    forall|i: int|
                        0 <= i < position ==> entry@[#[trigger] slot_at(p, i)] != u32::MAX,
                    is_first_free(entry@, p, first_free(entry@, p)),
                    position <= first_free(entry@, p),
                decreases M - position,
            {
                assert(position != first_free(entry@, p));
                position = position + 1;
                c = permuted_slot(offset, skip, position);
            }
            let ghost before = entry@;
            proof {
                assert(is_first_free(before, p, position as int));
                lemma_first_free_unique(before, p, position as int);
            }
            entry.set(c, j as u32);
            next.set(j, position + 1);
            filled = filled + 1;
            j = j + 1;
            proof {
                assert(entry@ == claimed(params@, filled as nat));
                lemma_claimed(params@, filled as nat);
                assert forall|b: int, i: int| 0 <= b < n && 0 <= i < next@[b] implies entry@[
                    #[trigger] slot_at(params@[b], i)] != u32::MAX by {
                    let s = slot_at(params@[b], i);
                    lemma_slot_range(params@[b], i);
                    if s != c {
                        assert(entry@[s] == before[s]);
                    }
                }
            }
        }
        proof {
            if filled < m {
                assert((round + 1) * n == round * n + n) by (nonlinear_arith);
                round = round + 1;
            }
        }
    }
    proof {
        lemma_claimed(params@, M as nat);
        assert forall|c: int| 0 <= c < M implies #[trigger] entry@[c] < params@.len() by {
            every_slot_is_owned(params@, c);
        }
    }
    entry
}

/// The slot at `position` of the permutation `(offset, skip)`.
fn permuted_slot(offset: usize, skip: usize, position: usize) -> (c: usize)
    requires
        valid_params((offset, skip)),
        position <= M,
    ensures
        c == slot_at((offset, skip), position as int),
        c < M,
{
    assert(0 <= position * skip <= 65537 * 65537) by (nonlinear_arith)
        requires
            position <= 65537,
            skip <= 65537,
    ;
    let c: u64 = (offset as u64 + position as u64 * skip as u64) % (M as u64);
    c as usize
}

/// Build the lookup table for the given backend keys.
///
/// Returns a vector of length `M` mapping each slot to the *local* index of the
/// owning backend (`0..keys.len()`). Empty slots (only possible when there are
/// no backends) are marked with `u32::MAX`.
pub fn build_table(keys: &[String]) -> (entry: Vec<u32>)
    ensures
        entry@ == maglev_table(keys_params(keys@.map_values(|key: String| key@))),
        entry@.len() == M,
        keys@.len() == 0 ==> forall|c: int| 0 <= c < M ==> #[trigger] entry@[c] == u32::MAX,
        keys@.len() > 0 ==> forall|c: int| 0 <= c < M ==> #[trigger] entry@[c] < keys@.len(),
        keys@.len() > 0 ==> is_filled_in_turn(keys@.map_values(|key: String| key@), entry@),
{
    let mut params: Vec<(usize, usize)> = Vec::new();
    let mut i: usize = 0;
    while i < keys.len()
        invariant
            i <= keys@.len(),
            params@.len() == i,
            forall|j: int|
                0 <= j < i ==> {
                    &&& #[trigger] params@[j] == key_params(keys@[j]@)
                    &&& valid_params(params@[j])
                },
        decreases keys@.len() - i,
    {
        params.push(permutation_params(keys[i].as_str()));
        i = i + 1;
    }
    let ghost texts = keys@.map_values(|key: String| key@);
    assert(params@ =~= keys_params(texts));
    let entry = fill_table(params.as_slice());
    proof {
        if keys@.len() > 0 {
            let order = backends_claim_slots_in_turn(texts);
            assert(filled_in_turn(texts, order, entry@));
        }
    }
    entry
}

/// Law: the permutation of a backend comes from the two hashes of its own key and from
/// nothing else, however many keys there are.
pub proof fn permutations_come_from_the_keys(keys: Seq<Seq<char>>, j: int)
    requires
        0 <= j < keys.len(),
    ensures
        keys_params(keys).len() == keys.len(),
        keys_params(keys)[j].0 == (xxh3_64(encode_utf8(keys[j]), 0xDEAD_BEEF) as usize) as int
            % 65537,
        keys_params(keys)[j].1 == (xxh3_64(encode_utf8(keys[j]), 0xCAFE_BABE) as usize) as int
            % 65536 + 1,
{
    key_params_are_valid(keys[j]);
}

/// Law: a key has the same permutation in every list, so that adding and dropping other
/// backends leaves it as it was.
pub proof fn other_keys_do_not_matter(
    a: Seq<Seq<char>>,
    i: int,
    b: Seq<Seq<char>>,
    j: int,
)
    requires
        0 <= i < a.len(),
        0 <= j < b.len(),
        a[i] == b[j],
    ensures
        keys_params(a)[i] == keys_params(b)[j],
{
}

/// The slot that the backend with the given key prefers in `k`-th place.
pub open spec fn preference(key: Seq<char>, k: int) -> int {
    let offset = (xxh3_64(encode_utf8(key), 0xDEAD_BEEF) as usize) as int % 65537;
    let skip = (xxh3_64(encode_utf8(key), 0xCAFE_BABE) as usize) as int % 65536 + 1;
    (offset + k * skip) % 65537
}

/// `c` is the slot that the backend with the given key prefers among those not in
/// `taken`.
pub open spec fn is_preferred(key: Seq<char>, taken: Seq<int>, c: int) -> bool {
    exists|k: int|
        0 <= k < 65537 && c == #[trigger] preference(key, k) && forall|i: int|
            0 <= i < k ==> taken.contains(#[trigger] preference(key, i))
}

/// `order` are the slots of a table in the order in which they are claimed: each of them
/// once, by the backends in turn, and each backend takes the slot it prefers among those
/// still free.
pub open spec fn filled_in_turn(
    keys: Seq<Seq<char>>,
    order: Seq<int>,
    entry: Seq<u32>,
) -> bool {
    &&& entry.len() == 65537
    &&& order.len() == 65537
    &&& order.no_duplicates()
    &&& forall|i: int|
        0 <= i < 65537 ==> {
            &&& 0 <= #[trigger] order[i] < 65537
            &&& entry[order[i]] == i % keys.len() as int
            &&& is_preferred(keys[i % keys.len() as int], order.take(i), order[i])
        }
}

/// Whether a table is what the backends get that take turns.
pub open spec fn is_filled_in_turn(keys: Seq<Seq<char>>, entry: Seq<u32>) -> bool {
    exists|order: Seq<int>| filled_in_turn(keys, order, entry)
}

/// The slot claimed on turn `i`.
spec fn claimed_on(params: Seq<(usize, usize)>, i: int) -> int {
    let p = params[i % params.len() as int];
    slot_at(p, first_free(claimed(params, i as nat), p))
}

/// After some turns exactly the slots claimed on them are taken, each by the backend
/// whose turn it was.
proof fn lemma_turns(params: Seq<(usize, usize)>, turns: nat)
    requires
        params.len() > 0,
        forall|j: int| 0 <= j < params.len() ==> valid_params(#[trigger] params[j]),
        turns <= M,
    ensures
        forall|i: int|
            0 <= i < turns ==> 0 <= #[trigger] claimed_on(params, i) < M && claimed(params, turns)[claimed_on(
                params,
                i,
            )] == i % params.len() as int,
        forall|c: int|
            0 <= c < M && claimed(params, turns)[c] != u32::MAX ==> exists|i: int|
                0 <= i < turns && #[trigger] claimed_on(params, i) == c,
    decreases turns,
{
    let n = params.len() as int;
    if turns > 0 {
        let t = (turns - 1) as nat;
        let before = claimed(params, t);
        let entry = claimed(params, turns);
        lemma_turns(params, t);
        lemma_claimed(params, t);
        lemma_mod_bound(t as int, n);
        lemma_mod_decreases(t, n as nat);
        let p = params[t as int % n];
        let c0 = claimed_on(params, t as int);
        lemma_slot_range(p, first_free(before, p));
        assert(before[c0] == u32::MAX);
        assert(entry == before.update(c0, (t as int % n) as u32));
        assert forall|i: int| 0 <= i < turns implies 0 <= #[trigger] claimed_on(params, i) < M
            && entry[claimed_on(params, i)] == i % n by {
            if i < t {
                let c = claimed_on(params, i);
                lemma_mod_bound(i, n);
                lemma_mod_decreases(i as nat, n as nat);
                assert(before[c] == i % n);
                assert(c != c0);
            }
        }
        assert forall|c: int| 0 <= c < M && entry[c] != u32::MAX implies exists|i: int|
            0 <= i < turns && #[trigger] claimed_on(params, i) == c by {
            if c != c0 {
                assert(before[c] != u32::MAX);
                let i = choose|i: int| 0 <= i < t && #[trigger] claimed_on(params, i) == c;
                assert(claimed_on(params, i) == c);
            }
        }
    } else {
        assert forall|c: int| 0 <= c < M implies claimed(params, 0)[c] == u32::MAX by {}
    }
}

/// Law: the slots are claimed one by one, the backends taking turns, and each takes the
/// slot it prefers among those still free. `order` are the slots in the order in which
/// they are claimed. The first backend therefore gets the very first slot it prefers.
pub proof fn backends_claim_slots_in_turn(keys: Seq<Seq<char>>) -> (order: Seq<int>)
    requires
        keys.len() > 0,
    ensures
        filled_in_turn(keys, order, maglev_table(keys_params(keys))),
        maglev_table(keys_params(keys))[(xxh3_64(encode_utf8(keys[0]), 0xDEAD_BEEF) as usize) as int
            % 65537] == 0,
{
    let params = keys_params(keys);
    let n = keys.len() as int;
    let order = Seq::new(65537, |i: int| claimed_on(params, i));
    assert forall|j: int| 0 <= j < params.len() implies valid_params(#[trigger] params[j]) by {
        key_params_are_valid(keys[j]);
    }
    lemma_turns(params, M as nat);
    lemma_claimed(params, M as nat);
    assert forall|i: int| 0 <= i < 65537 implies is_preferred(
        keys[i % n],
        order.take(i),
        #[trigger] order[i],
    ) by {
        lemma_mod_bound(i, n);
        let key = keys[i % n];
        let p = params[i % n];
        let entry = claimed(params, i as nat);
        lemma_claimed(params, i as nat);
        lemma_turns(params, i as nat);
        permutations_come_from_the_keys(keys, i % n);
        let f = first_free(entry, p);
        assert forall|k: int| slot_at(p, k) == #[trigger] preference(key, k) by {}
        assert forall|k: int| 0 <= k < f implies order.take(i).contains(
            #[trigger] preference(key, k),
        ) by {
            let c = slot_at(p, k);
            lemma_slot_range(p, k);
            assert(entry[c] != u32::MAX);
            let m = choose|m: int| 0 <= m < i && #[trigger] claimed_on(params, m) == c;
            assert(order.take(i)[m] == c);
        }
        assert(order[i] == preference(key, f));
    }
    assert forall|i: int, j: int| 0 <= i < j < order.len() implies order[i] != order[j] by {
        lemma_turns(params, j as nat);
        lemma_claimed(params, j as nat);
        lemma_mod_bound(j, n);
        lemma_mod_bound(i, n);
        lemma_mod_decreases(i as nat, n as nat);
        assert(claimed(params, j as nat)[claimed_on(params, i)] == i % n);
    }
    lemma_small_mod(0, n as nat);
    assert(is_preferred(keys[0], order.take(0), order[0]));
    let k = choose|k: int|
        0 <= k < 65537 && order[0] == #[trigger] preference(keys[0], k) && forall|i: int|
            0 <= i < k ==> order.take(0).contains(#[trigger] preference(keys[0], i));
    if k > 0 {
        assert(order.take(0).contains(preference(keys[0], 0)));
    }
    let offset = (xxh3_64(encode_utf8(keys[0]), 0xDEAD_BEEF) as usize) as int % 65537;
    lemma_mod_bound((xxh3_64(encode_utf8(keys[0]), 0xDEAD_BEEF) as usize) as int, 65537);
    lemma_small_mod(offset as nat, 65537);
    assert(preference(keys[0], 0) == offset);
    order
}

/// The slot a backend prefers among the free ones is one slot only.
proof fn lemma_one_preference(key: Seq<char>, taken: Seq<int>, c: int, d: int)
    requires
        is_preferred(key, taken, c),
        is_preferred(key, taken, d),
        !taken.contains(c),
        !taken.contains(d),
    ensures
        c == d,
{
    let j = choose|k: int|
        0 <= k < 65537 && c == #[trigger] preference(key, k) && forall|i: int|
            0 <= i < k ==> taken.contains(#[trigger] preference(key, i));
    let k = choose|k: int|
        0 <= k < 65537 && d == #[trigger] preference(key, k) && forall|i: int|
            0 <= i < k ==> taken.contains(#[trigger] preference(key, i));
    if j < k {
        assert(taken.contains(preference(key, j)));
    }
    if k < j {
        assert(taken.contains(preference(key, k)));
    }
}

proof fn lemma_same_turns(
    keys: Seq<Seq<char>>,
    a: Seq<int>,
    x: Seq<u32>,
    b: Seq<int>,
    y: Seq<u32>,
    n: int,
)
    requires
        keys.len() > 0,
        filled_in_turn(keys, a, x),
        filled_in_turn(keys, b, y),
        0 <= n <= 65537,
    ensures
        forall|i: int| 0 <= i < n ==> #[trigger] a[i] == b[i],
    decreases n,
{
    if n > 0 {
        let t = n - 1;
        lemma_same_turns(keys, a, x, b, y, t);
        assert(a.take(t) =~= b.take(t));
        assert(!a.take(t).contains(a[t])) by {
            if a.take(t).contains(a[t]) {
                let i = choose|i: int| 0 <= i < t && a.take(t)[i] == a[t];
                assert(a[i] == a[t]);
            }
        }
        assert(!b.take(t).contains(b[t])) by {
            if b.take(t).contains(b[t]) {
                let i = choose|i: int| 0 <= i < t && b.take(t)[i] == b[t];
                assert(b[i] == b[t]);
            }
        }
        lemma_one_preference(keys[t % keys.len() as int], a.take(t), a[t], b[t]);
    }
}

/// Law: taking turns leaves no choice. For given keys there is one order in which the slots
/// are claimed, and one table.
pub proof fn turns_leave_no_choice(
    keys: Seq<Seq<char>>,
    a: Seq<int>,
    x: Seq<u32>,
    b: Seq<int>,
    y: Seq<u32>,
)
    requires
        keys.len() > 0,
        filled_in_turn(keys, a, x),
        filled_in_turn(keys, b, y),
    ensures
        a == b,
        x == y,
{
    lemma_same_turns(keys, a, x, b, y, 65537);
    assert(a =~= b);
    let slots = a.to_set();
    let all = set_int_range(0, 65537);
    a.unique_seq_to_set();
    lemma_int_range(0, 65537);
    assert(slots.subset_of(all)) by {
        assert forall|c: int| slots.contains(c) implies all.contains(c) by {
            let i = choose|i: int| 0 <= i < a.len() && a[i] == c;
            assert(0 <= a[i] < 65537);
        }
    }
    lemma_subset_equality(slots, all);
    assert forall|c: int| 0 <= c < 65537 implies x[c] == y[c] by {
        assert(all.contains(c));
        assert(slots.contains(c));
        let i = choose|i: int| 0 <= i < a.len() && a[i] == c;
        assert(x[a[i]] == i % keys.len() as int);
        assert(y[b[i]] == i % keys.len() as int);
    }
    assert(x =~= y);
}

/// Law: without backends every slot is empty.
pub proof fn no_backends_leave_every_slot_empty(c: int)
    requires
        0 <= c < 65537,
    ensures
        maglev_table(keys_params(Seq::empty())).len() == 65537,
        maglev_table(keys_params(Seq::empty()))[c] == 0xFFFF_FFFF,
{
}

} // verus!
