//! 3- and 4-letter handle generators.
//!
//! Short handles are what hunters care about, so the generator is restricted to
//! [`Length::Three`] and [`Length::Four`], over lowercase letters or letters and
//! digits.
//!
//! Two modes:
//!
//! - [`GenMode::All`]: exhaustive enumeration in lexicographic order.
//! - [`GenMode::Random`]: uniform unique sampling with an optional seed.
use rand::rngs::StdRng;
use std::collections::HashSet;
use vstd::prelude::*;

use crate::randomness::{draw, entropy_rng, seeded_rng, shuffle};
#[allow(unused_imports)]
use crate::randomness::{range_draw, rng_words, seed_words, shuffle_order};
#[allow(unused_imports)]
use crate::text::{lemma_views_push, views};

verus! {

/// Search-space size for 3 letters.
pub const SPACE_3_LETTERS: usize = 26 * 26 * 26;

/// Search-space size for 4 letters.
pub const SPACE_4_LETTERS: usize = 26 * 26 * 26 * 26;

/// Length of the handle to generate. Restricted to 3 or 4.
#[derive(Debug, Clone, Copy, PartialEq, Eq, Structural)]
pub enum Length {
    Three,
    Four,
}

impl Length {
    /// The number of characters.
    pub open spec fn chars(self) -> nat {
        match self {
            Length::Three => 3,
            Length::Four => 4,
        }
    }

    pub fn as_usize(self) -> (n: usize)
        ensures
            n == self.chars(),
    {
        match self {
            Length::Three => 3,
            Length::Four => 4,
        }
    }

    pub fn from_u32(value: u32) -> (length: Option<Self>)
        ensures
            match length {
                Some(l) => l.chars() == value,
                None => value != 3 && value != 4,
            },
    {
        match value {
            3 => Some(Length::Three),
            4 => Some(Length::Four),
            _ => None,
        }
    }
}

const LETTERS: [u8; 26] = [
    97, 98, 99, 100, 101, 102, 103, 104, 105, 106, 107, 108, 109, 110, 111, 112, 113, 114, 115, 116,
    117, 118, 119, 120, 121, 122,
];

const ALNUM: [u8; 36] = [
    97, 98, 99, 100, 101, 102, 103, 104, 105, 106, 107, 108, 109, 110, 111, 112, 113, 114, 115, 116,
    117, 118, 119, 120, 121, 122, 48, 49, 50, 51, 52, 53, 54, 55, 56, 57,
];

/// Character pool the generator draws from.
#[derive(Debug, Clone, Copy, PartialEq, Eq, Structural)]
pub enum Charset {
    /// `a-z` (26 chars).
    Letters,
    /// `a-z` and `0-9` (36 chars).
    Alnum,
}

impl Charset {
    /// The characters of the pool, in ASCII: the letters in alphabetical order,
    /// then the digits in ascending order.
    pub open spec fn pool(self) -> Seq<u8> {
        match self {
            Charset::Letters => Seq::new(26, |i: int| (0x61 + i) as u8),
            Charset::Alnum => Seq::new(
                36,
                |i: int|
                    if i < 26 {
                        (0x61 + i) as u8
                    } else {
                        (0x30 + i - 26) as u8
                    },
            ),
        }
    }

    pub fn chars(self) -> (chars: &'static [u8])
        ensures
            chars@ == self.pool(),
    {
        match self {
            Charset::Letters => {
                let chars: &'static [u8] = &LETTERS;
                assert(chars@ =~= self.pool());
                chars
            },
            Charset::Alnum => {
                let chars: &'static [u8] = &ALNUM;
                assert(chars@ =~= self.pool());
                chars
            },
        }
    }

    /// The name of the pool.
    pub open spec fn name(self) -> Seq<char> {
        match self {
            Charset::Letters => "letters"@,
            Charset::Alnum => "alnum"@,
        }
    }

    pub fn label(self) -> (label: &'static str)
        ensures
            label@ == self.name(),
    {
        match self {
            Charset::Letters => "letters",
            Charset::Alnum => "alnum",
        }
    }
}

/// Generation strategy.
#[derive(Debug, Clone, Copy, PartialEq, Eq, Structural)]
pub enum GenMode {
    All,
    Random,
}

/// Aggregated config consumed by [`generate`].
#[derive(Debug, Clone)]
pub struct GenerateConfig {
    pub length: Length,
    pub charset: Charset,
    pub mode: GenMode,
    /// Number of items to produce. In `All` mode this caps the iteration;
    /// `None` means "emit the entire space". In `Random` mode this is
    /// the requested unique sample size.
    pub count: Option<usize>,
    /// Optional seed for `Random` mode reproducibility.
    pub seed: Option<u64>,
}

/// The number of strings of `n` characters over a pool of `base` characters.
pub open spec fn space(base: nat, n: nat) -> nat
    decreases n,
{
    if n == 0 {
        1
    } else {
        space(base, (n - 1) as nat) * base
    }
}

/// The sizes of the four search spaces.
pub proof fn law_space_sizes(charset: Charset, length: Length)
    ensures
        space(charset.pool().len(), length.chars()) == match (charset, length) {
            (Charset::Letters, Length::Three) => 17_576nat,
            (Charset::Letters, Length::Four) => 456_976nat,
            (Charset::Alnum, Length::Three) => 46_656nat,
            (Charset::Alnum, Length::Four) => 1_679_616nat,
        },
{
    assert(space(26, 0) == 1 && space(36, 0) == 1);
    assert(space(26, 1) == 26 && space(36, 1) == 36);
    assert(space(26, 2) == 676 && space(36, 2) == 1_296);
    assert(space(26, 3) == 17_576 && space(36, 3) == 46_656);
}

impl GenerateConfig {
    /// The number of distinct handles of this length over this pool.
    pub open spec fn space(self) -> nat {
        space(self.charset.pool().len(), self.length.chars())
    }

    pub fn space_size(&self) -> (size: usize)
        ensures
            size == self.space(),
    {
        space_of(self.charset, self.length)
    }
}

/// The number of distinct handles of the given length over the given pool.
fn space_of(charset: Charset, length: Length) -> (size: usize)
    ensures
        size == space(charset.pool().len(), length.chars()),
{
    let base: usize = charset.chars().len();
    proof {
        assert(base * base <= 1_296 && base * base * base <= 46_656 && base * base * base * base
            <= 1_679_616) by (nonlinear_arith)
            requires
                base <= 36,
        ;
        let b = base as nat;
        assert(space(b, 0) == 1);
        assert(1 * b == b) by (nonlinear_arith);
        assert(space(b, 1) == b);
        assert(space(b, 2) == b * b);
        assert(space(b, 3) == b * b * b);
    }
    match length {
        Length::Three => base * base * base,
        Length::Four => base * base * base * base,
    }
}

/// The `n`-digit numeral of `idx` over the digits `pool`, most significant digit
/// first.
pub open spec fn numeral(pool: Seq<u8>, n: nat, idx: nat) -> Seq<char>
    decreases n,
{
    if n == 0 {
        seq![]
    } else {
        numeral(pool, (n - 1) as nat, idx / pool.len()).push(pool[(idx % pool.len()) as int] as char)
    }
}

/// The handle at position `idx` of the enumeration over the pool `chars`.
pub fn index_to_handle(idx: usize, chars: &[u8], n: usize) -> (handle: String)
    requires
        chars@.len() > 0,
        n <= 4,
        forall|i: int| 0 <= i < chars@.len() ==> chars@[i] < 0x80,
    ensures
        handle@ == numeral(chars@, n as nat, idx as nat),
{
    let base: usize = chars.len();
    let mut rest: usize = idx;
    let mut buf: [u8; 4] = [0; 4];
    let mut i: usize = n;
    let ghost full = numeral(chars@, n as nat, idx as nat);
    while i > 0
        invariant
            base == chars@.len() > 0,
            i <= n <= 4,
            full == numeral(chars@, i as nat, rest as nat) + buf@.subrange(
                i as int,
                n as int,
            ).map_values(|b: u8| b as char),
        decreases i,
    {
        let ghost tail = buf@.subrange(i as int, n as int);
        i = i - 1;
        buf[i] = chars[rest % base];
        assert(buf@.subrange(i as int, n as int) =~= seq![chars@[(rest % base) as int]] + tail);
        rest = rest / base;
    }
    let mut handle = String::new();
    while i < n
        invariant
            i <= n <= 4,
            full == buf@.subrange(0, n as int).map_values(|b: u8| b as char),
            handle@ == full.take(i as int),
        decreases n - i,
    {
        handle.push(buf[i] as char);
        i = i + 1;
        assert(handle@ =~= full.take(i as int));
    }
    assert(handle@ =~= full);
    handle
}

/// Whether `c` is one of the characters of `pool`.
pub open spec fn in_pool(pool: Seq<u8>, c: char) -> bool {
    exists|d: int| 0 <= d < pool.len() && #[trigger] pool[d] as char == c
}

/// Whether `s` has `n` characters, all of them from `pool`.
pub open spec fn drawn_from(pool: Seq<u8>, n: nat, s: Seq<char>) -> bool {
    &&& s.len() == n
    &&& forall|i: int| 0 <= i < n ==> in_pool(pool, #[trigger] s[i])
}

/// Whether no character occurs twice in `pool`, and all are ASCII.
pub open spec fn proper_pool(pool: Seq<u8>) -> bool {
    &&& pool.len() > 0
    &&& pool.no_duplicates()
    &&& forall|i: int| 0 <= i < pool.len() ==> pool[i] < 0x80
}

/// Both character pools are ASCII and without repetition.
pub proof fn lemma_pool_is_proper(charset: Charset)
    ensures
        proper_pool(charset.pool()),
{
}

/// Every numeral has the asked length and is made of the pool's characters.
pub proof fn lemma_numeral_drawn_from_pool(pool: Seq<u8>, n: nat, idx: nat)
    requires
        pool.len() > 0,
    ensures
        drawn_from(pool, n, numeral(pool, n, idx)),
    decreases n,
{
    if n > 0 {
        let prefix = numeral(pool, (n - 1) as nat, idx / pool.len());
        lemma_numeral_drawn_from_pool(pool, (n - 1) as nat, idx / pool.len());
        let s = numeral(pool, n, idx);
        assert forall|i: int| 0 <= i < n implies in_pool(pool, #[trigger] s[i]) by {
            if i < n - 1 {
                assert(s[i] == prefix[i]);
            } else {
                let d = (idx % pool.len()) as int;
                assert(s[i] == pool[d] as char);
            }
        }
    }
}

proof fn lemma_quotient_in_space(base: nat, n: nat, idx: nat)
    requires
        base > 0,
        n > 0,
        idx < space(base, n),
    ensures
        idx / base < space(base, (n - 1) as nat),
{
    let rest = space(base, (n - 1) as nat);
    assert(idx / base < rest) by (nonlinear_arith)
        requires
            base > 0,
            idx < rest * base,
    ;
}

/// Distinct positions of the search space have distinct numerals.
pub proof fn lemma_numeral_injective(pool: Seq<u8>, n: nat, a: nat, b: nat)
    requires
        proper_pool(pool),
        a < space(pool.len(), n),
        b < space(pool.len(), n),
        numeral(pool, n, a) == numeral(pool, n, b),
    ensures
        a == b,
    decreases n,
{
    if n > 0 {
        let base = pool.len();
        let x = numeral(pool, n, a);
        let y = numeral(pool, n, b);
        assert(x.drop_last() =~= numeral(pool, (n - 1) as nat, a / base));
        assert(y.drop_last() =~= numeral(pool, (n - 1) as nat, b / base));
        lemma_quotient_in_space(base, n, a);
        lemma_quotient_in_space(base, n, b);
        lemma_numeral_injective(pool, (n - 1) as nat, a / base, b / base);
        assert(x.last() == y.last());
        assert(pool[(a % base) as int] == pool[(b % base) as int]);
        vstd::arithmetic::div_mod::lemma_fundamental_div_mod(a as int, base as int);
        vstd::arithmetic::div_mod::lemma_fundamental_div_mod(b as int, base as int);
    }
}

/// Whether `x` comes before `y` in the lexicographic order in which the
/// characters rank by their position in `pool`.
pub open spec fn lexicographically_before(pool: Seq<u8>, x: Seq<char>, y: Seq<char>) -> bool {
    exists|k: int, p: int, q: int|
        #![trigger x.take(k), pool[p], pool[q]]
        {
            &&& 0 <= k < x.len()
            &&& k < y.len()
            &&& x.take(k) == y.take(k)
            &&& 0 <= p < q < pool.len()
            &&& x[k] == pool[p] as char
            &&& y[k] == pool[q] as char
        }
}

/// The enumeration runs in lexicographic order.
pub proof fn law_enumeration_is_lexicographic(pool: Seq<u8>, n: nat, a: nat, b: nat)
    requires
        pool.len() > 0,
        a < b < space(pool.len(), n),
    ensures
        lexicographically_before(pool, numeral(pool, n, a), numeral(pool, n, b)),
    decreases n,
{
    if n > 0 {
        let base = pool.len();
        let x = numeral(pool, n, a);
        let y = numeral(pool, n, b);
        let xs = numeral(pool, (n - 1) as nat, a / base);
        let ys = numeral(pool, (n - 1) as nat, b / base);
        lemma_numeral_drawn_from_pool(pool, (n - 1) as nat, a / base);
        lemma_numeral_drawn_from_pool(pool, (n - 1) as nat, b / base);
        vstd::arithmetic::div_mod::lemma_fundamental_div_mod(a as int, base as int);
        vstd::arithmetic::div_mod::lemma_fundamental_div_mod(b as int, base as int);
        assert(a / base <= b / base) by (nonlinear_arith)
            requires
                a < b,
                base > 0,
        ;
        if a / base < b / base {
            lemma_quotient_in_space(base, n, b);
            law_enumeration_is_lexicographic(pool, (n - 1) as nat, a / base, b / base);
            let (k, p, q) = choose|k: int, p: int, q: int|
                #![trigger xs.take(k), pool[p], pool[q]]
                {
                    &&& 0 <= k < xs.len()
                    &&& k < ys.len()
                    &&& xs.take(k) == ys.take(k)
                    &&& 0 <= p < q < pool.len()
                    &&& xs[k] == pool[p] as char
                    &&& ys[k] == pool[q] as char
                };
            assert(x.take(k) =~= xs.take(k));
            assert(y.take(k) =~= ys.take(k));
            assert(x[k] == pool[p] as char && y[k] == pool[q] as char);
        } else {
            let k = n - 1;
            let p = (a % base) as int;
            let q = (b % base) as int;
            assert(x.take(k) =~= xs);
            assert(y.take(k) =~= ys);
            assert(x[k] == pool[p] as char && y[k] == pool[q] as char);
        }
    }
}

/// The position of `s` in the enumeration.
pub open spec fn rank(pool: Seq<u8>, s: Seq<char>) -> nat
    decreases s.len(),
{
    if s.len() == 0 {
        0
    } else {
        let d = choose|d: int| 0 <= d < pool.len() && #[trigger] pool[d] as char == s.last();
        rank(pool, s.drop_last()) * pool.len() + d as nat
    }
}

/// The enumeration is exhaustive: each string of `n` characters over the pool
/// stands at some position of the search space.
pub proof fn law_enumeration_is_exhaustive(pool: Seq<u8>, n: nat, s: Seq<char>)
    requires
        pool.len() > 0,
        drawn_from(pool, n, s),
    ensures
        rank(pool, s) < space(pool.len(), n),
        numeral(pool, n, rank(pool, s)) == s,
    decreases n,
{
    if n > 0 {
        let base = pool.len();
        let prefix = s.drop_last();
        assert forall|i: int| 0 <= i < n - 1 implies in_pool(pool, #[trigger] prefix[i]) by {
            assert(prefix[i] == s[i]);
        }
        law_enumeration_is_exhaustive(pool, (n - 1) as nat, prefix);
        assert(s[n - 1] == s.last());
        let d = choose|d: int| 0 <= d < pool.len() && #[trigger] pool[d] as char == s.last();
        let r = rank(pool, prefix);
        let total = rank(pool, s);
        assert(total == r * base + d as nat);
        vstd::arithmetic::div_mod::lemma_fundamental_div_mod_converse(
            total as int,
            base as int,
            r as int,
            d,
        );
        let rest = space(base, (n - 1) as nat);
        assert(total < rest * base) by (nonlinear_arith)
            requires
                total == r * base + d as nat,
                r < rest,
                0 <= d < base,
        ;
        assert(numeral(pool, n, total) =~= s);
    }
}

/// The handles at the positions `indices`.
pub open spec fn handles(pool: Seq<u8>, n: nat, indices: Seq<usize>) -> Seq<Seq<char>> {
    Seq::new(indices.len(), |i: int| numeral(pool, n, indices[i] as nat))
}

/// The first `count` handles of the enumeration.
pub open spec fn first_handles(pool: Seq<u8>, n: nat, count: nat) -> Seq<Seq<char>> {
    Seq::new(count, |i: int| numeral(pool, n, i as nat))
}

/// Whether `indices` names different positions below `space`.
pub open spec fn is_selection(indices: Seq<usize>, space: nat) -> bool {
    &&& indices.no_duplicates()
    &&& forall|i: int| 0 <= i < indices.len() ==> #[trigger] indices[i] < space
}

/// Different positions give different handles, each a string over the pool.
pub proof fn lemma_selection_gives_unique_handles(pool: Seq<u8>, n: nat, indices: Seq<usize>)
    requires
        proper_pool(pool),
        is_selection(indices, space(pool.len(), n)),
    ensures
        handles(pool, n, indices).no_duplicates(),
        forall|i: int|
            0 <= i < indices.len() ==> drawn_from(pool, n, #[trigger] handles(pool, n, indices)[i]),
{
    let hs = handles(pool, n, indices);
    assert forall|i: int, j: int| 0 <= i < hs.len() && 0 <= j < hs.len() && i != j implies hs[i]
        != hs[j] by {
        if hs[i] == hs[j] {
            lemma_numeral_injective(pool, n, indices[i] as nat, indices[j] as nat);
        }
    }
    assert forall|i: int| 0 <= i < indices.len() implies drawn_from(pool, n, #[trigger] hs[i]) by {
        lemma_numeral_drawn_from_pool(pool, n, indices[i] as nat);
    }
}

/// Enumerates the first `target` handles, or all of them where there are fewer.
pub fn generate_all(charset: Charset, length: Length, target: usize) -> (out: Vec<String>)
    ensures
        views(out@) == first_handles(
            charset.pool(),
            length.chars(),
            if target < space(charset.pool().len(), length.chars()) {
                target as nat
            } else {
                space(charset.pool().len(), length.chars())
            },
        ),
{
    let chars = charset.chars();
    let n: usize = length.as_usize();
    let total: usize = space_of(charset, length);
    let mut out: Vec<String> = Vec::new();
    let mut idx: usize = 0;
    while idx < total && out.len() < target
        invariant
            chars@ == charset.pool(),
            proper_pool(chars@),
            n == length.chars(),
            idx <= total == space(charset.pool().len(), length.chars()),
            idx == out@.len() <= target,
            views(out@) == first_handles(chars@, n as nat, idx as nat),
        decreases total - idx,
    {
        let handle = index_to_handle(idx, chars, n);
        proof {
            lemma_views_push(out@, handle);
        }
        out.push(handle);
        idx = idx + 1;
        assert(views(out@) =~= first_handles(chars@, n as nat, idx as nat));
    }
    out
}

/// A set of positions of the search space, in the order in which they were
/// accepted.
pub struct Sample {
    seen: HashSet<usize>,
    picked: Vec<usize>,
}

impl View for Sample {
    type V = Seq<usize>;

    closed spec fn view(&self) -> Seq<usize> {
        self.picked@
    }
}

/// Whether `idx` is the least position that `picked` leaves out.
pub open spec fn is_least_unused(picked: Seq<usize>, idx: usize) -> bool {
    &&& !picked.contains(idx)
    &&& forall|k: usize| k < idx ==> picked.contains(k)
}

proof fn lemma_pigeonhole(picked: Seq<usize>, k: nat)
    requires
        k <= usize::MAX,
        forall|j: usize| j < k ==> picked.contains(j),
    ensures
        picked.len() >= k,
    decreases k,
{
    if k > 0 {
        let top = (k - 1) as usize;
        assert(picked.contains(top));
        let at = choose|i: int| 0 <= i < picked.len() && picked[i] == top;
        let rest = picked.remove(at);
        assert forall|j: usize| j < k - 1 implies rest.contains(j) by {
            assert(picked.contains(j));
            let i = choose|i: int| 0 <= i < picked.len() && picked[i] == j;
            if i < at {
                assert(rest[i] == j);
            } else {
                assert(rest[i - 1] == j);
            }
        }
        lemma_pigeonhole(rest, (k - 1) as nat);
    }
}

impl Sample {
    /// No position was accepted twice.
    pub closed spec fn well_formed(self) -> bool {
        &&& self.picked@.no_duplicates()
        &&& forall|i: usize| self.seen@.contains(i) <==> self.picked@.contains(i)
    }

    /// An empty sample.
    pub fn new() -> (sample: Self)
        ensures
            sample.well_formed(),
            sample@ == Seq::<usize>::empty(),
    {
        Sample { seen: HashSet::new(), picked: Vec::new() }
    }

    /// A well-formed sample holds no position twice.
    pub proof fn lemma_unique(self)
        requires
            self.well_formed(),
        ensures
            self@.no_duplicates(),
    {
    }

    pub fn len(&self) -> (n: usize)
        ensures
            n == self@.len(),
    {
        self.picked.len()
    }

    /// The positions, in the order in which they were accepted.
    pub fn positions(&self) -> (positions: &Vec<usize>)
        ensures
            positions@ == self@,
    {
        &self.picked
    }

    /// Accepts `idx` unless the sample already holds it.
    pub fn offer(&mut self, idx: usize) -> (fresh: bool)
        requires
            old(self).well_formed(),
        ensures
            final(self).well_formed(),
            fresh == !old(self)@.contains(idx),
            final(self)@ == if fresh {
                old(self)@.push(idx)
            } else {
                old(self)@
            },
    {
        broadcast use vstd::std_specs::hash::group_hash_axioms;

        let ghost before = self.picked@;
        if self.seen.insert(idx) {
            self.picked.push(idx);
            proof {
                let after = self.picked@;
                assert forall|i: usize| self.seen@.contains(i) <==> after.contains(i) by {
                    if before.contains(i) {
                        let k = choose|k: int| 0 <= k < before.len() && before[k] == i;
                        assert(after[k] == i);
                    }
                    assert(after[after.len() - 1] == idx);
                }
            }
            true
        } else {
            false
        }
    }

    /// The least position below `space` that the sample does not hold.
    pub fn least_unused(&self, space: usize) -> (idx: usize)
        requires
            self.well_formed(),
            self@.len() < space,
        ensures
            idx < space,
            is_least_unused(self@, idx),
    {
        broadcast use vstd::std_specs::hash::group_hash_axioms;

        let mut idx: usize = 0;
        while self.seen.contains(&idx)
            invariant
                self.well_formed(),
                self@.len() < space,
                idx < space,
                forall|k: usize| k < idx ==> self@.contains(k),
            decreases space - idx,
        {
            proof {
                assert(self@.contains(idx));
                lemma_pigeonhole(self@, (idx + 1) as nat);
            }
            idx = idx + 1;
        }
        idx
    }
}

/// `pool` with the items at `i` and `j` exchanged.
pub open spec fn swapped(pool: Seq<usize>, i: int, j: int) -> Seq<usize> {
    pool.update(i, pool[j]).update(j, pool[i])
}

/// A partial Fisher-Yates shuffle: each position from `i` up to `target` is
/// exchanged with one drawn from it and those behind it.
pub open spec fn partly_shuffled(
    words: Map<nat, u32>,
    pool: Seq<usize>,
    i: nat,
    target: nat,
    usize_bits: u32,
) -> (Seq<usize>, Map<nat, u32>)
    decreases target - i,
{
    if i >= target {
        (pool, words)
    } else {
        let (j, rest) = range_draw(words, i as usize, pool.len() as usize, usize_bits);
        partly_shuffled(rest, swapped(pool, i as int, j as int), i + 1, target, usize_bits)
    }
}

/// Rejection sampling: draws from `0..space` that are new are kept until there
/// are `target` of them. After `budget` draws the least unused positions follow.
pub open spec fn rejection_sample(
    words: Map<nat, u32>,
    picked: Seq<usize>,
    space: usize,
    target: nat,
    budget: nat,
    usize_bits: u32,
) -> Seq<usize>
    decreases budget, target - picked.len(),
{
    if picked.len() >= target {
        picked
    } else if budget == 0 {
        let idx = choose|idx: usize| is_least_unused(picked, idx);
        rejection_sample(words, picked.push(idx), space, target, 0, usize_bits)
    } else {
        let (idx, rest) = range_draw(words, 0, space, usize_bits);
        let next = if picked.contains(idx) {
            picked
        } else {
            picked.push(idx)
        };
        rejection_sample(rest, next, space, target, (budget - 1) as nat, usize_bits)
    }
}

/// The number of draws that rejection sampling makes at most. The word stream of
/// the generator repeats long before, so a sample that is still short by then
/// would never fill up.
pub const DRAW_BUDGET: u128 = 0xffff_ffff_ffff_ffff_ffff_ffff_ffff_ffff;

/// The handles that a generator with the stream `words` samples.
pub open spec fn sampled_handles(
    words: Map<nat, u32>,
    pool: Seq<u8>,
    n: nat,
    target: nat,
    usize_bits: u32,
) -> Seq<Seq<char>> {
    let size = space(pool.len(), n);
    if target * 2 >= size {
        let (positions, rest) = partly_shuffled(
            words,
            Seq::new(size, |i: int| i as usize),
            0,
            target,
            usize_bits,
        );
        let (order, _) = shuffle_order(rest, target);
        order.map_values(|k: int| handles(pool, n, positions.take(target as int))[k])
    } else {
        handles(
            pool,
            n,
            rejection_sample(words, seq![], size as usize, target, DRAW_BUDGET as nat, usize_bits),
        )
    }
}

/// Whether some stream of random words gives the sample `list`.
pub open spec fn is_sample(pool: Seq<u8>, n: nat, count: nat, list: Seq<Seq<char>>) -> bool {
    exists|words: Map<nat, u32>|
        list == #[trigger] sampled_handles(words, pool, n, count, usize::BITS)
}

/// The positions `0..size`.
fn all_positions(size: usize) -> (positions: Vec<usize>)
    ensures
        positions@ == Seq::new(size as nat, |i: int| i as usize),
{
    let mut positions: Vec<usize> = Vec::new();
    let mut i: usize = 0;
    while i < size
        invariant
            i <= size,
            positions@ == Seq::new(i as nat, |i: int| i as usize),
        decreases size - i,
    {
        positions.push(i);
        i = i + 1;
        assert(positions@ =~= Seq::new(i as nat, |i: int| i as usize));
    }
    positions
}

/// The handles at the given positions.
fn handles_at(positions: &Vec<usize>, chars: &[u8], n: usize) -> (out: Vec<String>)
    requires
        proper_pool(chars@),
        n <= 4,
    ensures
        views(out@) == handles(chars@, n as nat, positions@),
{
    let mut out: Vec<String> = Vec::new();
    let mut i: usize = 0;
    while i < positions.len()
        invariant
            proper_pool(chars@),
            n <= 4,
            i <= positions@.len(),
            views(out@) == handles(chars@, n as nat, positions@.take(i as int)),
        decreases positions@.len() - i,
    {
        let handle = index_to_handle(positions[i], chars, n);
        proof {
            lemma_views_push(out@, handle);
        }
        out.push(handle);
        i = i + 1;
        assert(views(out@) =~= handles(chars@, n as nat, positions@.take(i as int)));
    }
    assert(positions@.take(i as int) =~= positions@);
    out
}

/// Whether `list` holds `count` different strings of `n` characters over `pool`.
pub open spec fn unique_handles(pool: Seq<u8>, n: nat, count: nat, list: Seq<Seq<char>>) -> bool {
    &&& list.len() == count
    &&& list.no_duplicates()
    &&& forall|i: int| 0 <= i < count ==> drawn_from(pool, n, #[trigger] list[i])
}

/// A partial Fisher-Yates shuffle over the positions of the search space, for
/// samples that take a large part of it.
fn sample_by_shuffling(
    rng: &mut StdRng,
    chars: &[u8],
    n: usize,
    size: usize,
    target: usize,
) -> (out: Vec<String>)
    requires
        proper_pool(chars@),
        n <= 4,
        size == space(chars@.len(), n as nat),
        target <= size,
        target * 2 >= size,
    ensures
        unique_handles(chars@, n as nat, target as nat, views(out@)),
        views(out@) == sampled_handles(
            rng_words(*old(rng)),
            chars@,
            n as nat,
            target as nat,
            usize::BITS,
        ),
{
    let mut pool = all_positions(size);
    let ghost start = pool@;
    let ghost words = rng_words(*rng);
    let mut i: usize = 0;
    while i < target
        invariant
            i <= target <= size == pool@.len(),
            is_selection(pool@, size as nat),
            partly_shuffled(words, start, 0, target as nat, usize::BITS) == partly_shuffled(
                rng_words(*rng),
                pool@,
                i as nat,
                target as nat,
                usize::BITS,
            ),
        decreases target - i,
    {
        let j: usize = draw(rng, i, size);
        let a: usize = pool[i];
        let b: usize = pool[j];
        let ghost before = pool@;
        pool.set(i, b);
        pool.set(j, a);
        assert(pool@ =~= swapped(before, i as int, j as int));
        i = i + 1;
    }
    let ghost positions = pool@.take(target as int);
    pool.truncate(target);
    assert(pool@ =~= positions);
    let mut out = handles_at(&pool, chars, n);
    let ghost before = out@;
    shuffle(&mut out, rng);
    proof {
        lemma_selection_gives_unique_handles(chars@, n as nat, positions);
        let all = handles(chars@, n as nat, positions);
        let sampled = sampled_handles(words, chars@, n as nat, target as nat, usize::BITS);
        assert(all == views(before));
        assert(views(before).len() == before.len());
        assert(views(out@) =~= sampled);
    }
    out
}

/// Rejection sampling, for samples that take a small part of the search space.
fn sample_by_rejection(rng: &mut StdRng, size: usize, target: usize) -> (sample: Sample)
    requires
        0 < size,
        target <= size,
    ensures
        sample@.len() == target,
        is_selection(sample@, size as nat),
        sample@ == rejection_sample(
            rng_words(*old(rng)),
            seq![],
            size,
            target as nat,
            DRAW_BUDGET as nat,
            usize::BITS,
        ),
{
    let mut sample = Sample::new();
    let mut budget: u128 = DRAW_BUDGET;
    let ghost words = rng_words(*rng);
    while sample.len() < target
        invariant
            0 < size,
            target <= size,
            sample.well_formed(),
            sample@.len() <= target,
            forall|i: int| 0 <= i < sample@.len() ==> #[trigger] sample@[i] < size,
            rejection_sample(
                words,
                seq![],
                size,
                target as nat,
                DRAW_BUDGET as nat,
                usize::BITS,
            ) == rejection_sample(
                rng_words(*rng),
                sample@,
                size,
                target as nat,
                budget as nat,
                usize::BITS,
            ),
        decreases budget, target - sample@.len(),
    {
        if budget > 0 {
            budget = budget - 1;
            let idx: usize = draw(rng, 0, size);
            sample.offer(idx);
        } else {
            let idx: usize = sample.least_unused(size);
            let ghost picked = sample@;
            proof {
                let other = choose|k: usize| is_least_unused(picked, k);
                assert(is_least_unused(picked, idx));
                assert(other == idx) by {
                    if other < idx {
                        assert(picked.contains(other));
                    }
                    if idx < other {
                        assert(picked.contains(idx));
                    }
                }
            }
            sample.offer(idx);
        }
    }
    proof {
        sample.lemma_unique();
    }
    sample
}

/// Draws `target` different handles, or all of them in random order where there
/// are fewer. The list is what a stream of random words gives; a seed determines
/// the stream.
pub fn generate_random(charset: Charset, length: Length, target: usize, seed: Option<u64>) -> (out: 
    Vec<String>)
    ensures
        ({
            let pool = charset.pool();
            let n = length.chars();
            let size = space(pool.len(), n);
            let count = if target < size {
                target as nat
            } else {
                size
            };
            &&& unique_handles(pool, n, count, views(out@))
            &&& is_sample(pool, n, count, views(out@))
            &&& seed matches Some(s) ==> views(out@) == sampled_handles(
                seed_words(s),
                pool,
                n,
                count,
                usize::BITS,
            )
        }),
{
    let chars = charset.chars();
    let n: usize = length.as_usize();
    let size: usize = space_of(charset, length);
    proof {
        law_space_sizes(charset, length);
        lemma_pool_is_proper(charset);
    }
    let target: usize = if target < size {
        target
    } else {
        size
    };
    let mut rng = match seed {
        Some(s) => seeded_rng(s),
        None => entropy_rng(),
    };
    let ghost words = rng_words(rng);
    let ghost sampled = sampled_handles(words, chars@, n as nat, target as nat, usize::BITS);
    if target * 2 >= size {
        let out = sample_by_shuffling(&mut rng, chars, n, size, target);
        assert(views(out@) == sampled);
        return out;
    }
    let sample = sample_by_rejection(&mut rng, size, target);
    proof {
        lemma_selection_gives_unique_handles(chars@, n as nat, sample@);
    }
    let out = handles_at(sample.positions(), chars, n);
    assert(views(out@) == sampled);
    out
}

/// The number of handles that [`generate`] produces.
pub open spec fn batch_size(cfg: GenerateConfig) -> nat {
    let wanted = match (cfg.count, cfg.mode) {
        (Some(count), _) => count as nat,
        (None, GenMode::All) => cfg.space(),
        (None, GenMode::Random) => 1000,
    };
    if wanted < cfg.space() {
        wanted
    } else {
        cfg.space()
    }
}

/// Whether `batch` is what [`generate`] may produce for `cfg`: different handles
/// of the asked shape and number. In `All` mode they are the first ones of the
/// enumeration, in `Random` mode a sample, which a seed determines.
pub open spec fn is_batch(cfg: GenerateConfig, batch: Seq<Seq<char>>) -> bool {
    let pool = cfg.charset.pool();
    let n = cfg.length.chars();
    &&& unique_handles(pool, n, batch_size(cfg), batch)
    &&& cfg.mode == GenMode::All ==> batch == first_handles(pool, n, batch_size(cfg))
    &&& cfg.mode == GenMode::Random ==> is_sample(pool, n, batch_size(cfg), batch)
    &&& cfg.mode == GenMode::Random ==> (cfg.seed matches Some(seed) ==> batch
        == sampled_handles(seed_words(seed), pool, n, batch_size(cfg), usize::BITS))
}

/// `All` mode without a count is exhaustive: every handle of the asked length over
/// the pool is in the batch, once and at the position of its rank.
pub proof fn law_all_mode_covers_the_space(
    cfg: GenerateConfig,
    batch: Seq<Seq<char>>,
    handle: Seq<char>,
)
    requires
        cfg.mode == GenMode::All,
        cfg.count is None,
        is_batch(cfg, batch),
        drawn_from(cfg.charset.pool(), cfg.length.chars(), handle),
    ensures
        batch.len() == cfg.space(),
        batch.contains(handle),
        batch[rank(cfg.charset.pool(), handle) as int] == handle,
{
    lemma_pool_is_proper(cfg.charset);
    law_enumeration_is_exhaustive(cfg.charset.pool(), cfg.length.chars(), handle);
    assert(batch[rank(cfg.charset.pool(), handle) as int] == handle);
}

/// `All` mode emits handles in lexicographic order of the pool.
pub proof fn law_all_mode_is_lexicographic(
    cfg: GenerateConfig,
    batch: Seq<Seq<char>>,
    i: int,
    j: int,
)
    requires
        cfg.mode == GenMode::All,
        is_batch(cfg, batch),
        0 <= i < j < batch.len(),
    ensures
        lexicographically_before(cfg.charset.pool(), batch[i], batch[j]),
{
    law_enumeration_is_lexicographic(
        cfg.charset.pool(),
        cfg.length.chars(),
        i as nat,
        j as nat,
    );
}

/// A count in `All` mode cuts the enumeration short: the batch is the beginning of
/// the whole enumeration.
pub proof fn law_count_caps_the_enumeration(
    cfg: GenerateConfig,
    whole: Seq<Seq<char>>,
    count: usize,
    batch: Seq<Seq<char>>,
)
    requires
        cfg.mode == GenMode::All,
        cfg.count is None,
        is_batch(cfg, whole),
        is_batch(GenerateConfig { count: Some(count), ..cfg }, batch),
    ensures
        batch.len() <= count,
        batch == whole.take(batch.len() as int),
{
    assert(batch =~= whole.take(batch.len() as int));
}

/// A seed makes random batches reproducible: equal requests with a seed have
/// equal batches.
pub proof fn law_seed_is_reproducible(
    cfg: GenerateConfig,
    first: Seq<Seq<char>>,
    second: Seq<Seq<char>>,
)
    requires
        cfg.mode == GenMode::Random ==> cfg.seed is Some,
        is_batch(cfg, first),
        is_batch(cfg, second),
    ensures
        first == second,
{
}

/// Materializes the requested batch.
///
/// `All` returns a stable lexicographic ordering. `Random` returns
/// uniformly-distributed unique strings; the seed (if provided) makes the output
/// deterministic.
pub fn generate(cfg: &GenerateConfig) -> (out: Vec<String>)
    ensures
        is_batch(*cfg, views(out@)),
{
    let size: usize = cfg.space_size();
    let wanted: usize = match cfg.count {
        Some(count) => count,
        None => match cfg.mode {
            GenMode::All => size,
            GenMode::Random => 1000,
        },
    };
    let target: usize = if wanted < size {
        wanted
    } else {
        size
    };
    if target == 0 {
        let out: Vec<String> = Vec::new();
        proof {
            let pool = cfg.charset.pool();
            let n = cfg.length.chars();
            law_space_sizes(cfg.charset, cfg.length);
            assert(views(out@) =~= first_handles(pool, n, 0));
            assert(views(out@) =~= sampled_handles(Map::empty(), pool, n, 0, usize::BITS));
            if let Some(seed) = cfg.seed {
                assert(views(out@) =~= sampled_handles(seed_words(seed), pool, n, 0, usize::BITS));
            }
        }
        return out;
    }
    match cfg.mode {
        GenMode::All => {
            proof {
                lemma_pool_is_proper(cfg.charset);
                let pool = cfg.charset.pool();
                let n = cfg.length.chars();
                let indices = Seq::new(target as nat, |i: int| i as usize);
                lemma_selection_gives_unique_handles(pool, n, indices);
                assert(first_handles(pool, n, target as nat) =~= handles(pool, n, indices));
            }
            generate_all(cfg.charset, cfg.length, target)
        },
        GenMode::Random => generate_random(cfg.charset, cfg.length, target, cfg.seed),
    }
}

/// A batch has as many handles as asked for, up to the size of the search space, in
/// both modes. Without a count it has all of them in `All` mode, and a thousand in
/// `Random` mode.
pub proof fn law_count_fixes_the_size(cfg: GenerateConfig, batch: Seq<Seq<char>>)
    requires
        is_batch(cfg, batch),
    ensures
        ({
            let size: nat = match (cfg.charset, cfg.length) {
                (Charset::Letters, Length::Three) => 17_576,
                (Charset::Letters, Length::Four) => 456_976,
                (Charset::Alnum, Length::Three) => 46_656,
                (Charset::Alnum, Length::Four) => 1_679_616,
            };
            match cfg.count {
                Some(k) => batch.len() == if k <= size {
                    k as nat
                } else {
                    size
                },
                None => batch.len() == if cfg.mode == GenMode::All {
                    size
                } else {
                    1000
                },
            }
        }),
{
    law_space_sizes(cfg.charset, cfg.length);
}

/// Every handle of a batch has the asked length and is made of lowercase letters, or
/// of lowercase letters and digits, and no two are the same.
pub proof fn law_handles_have_the_asked_shape(
    cfg: GenerateConfig,
    batch: Seq<Seq<char>>,
    i: int,
    j: int,
    k: int,
)
    requires
        is_batch(cfg, batch),
        0 <= i < batch.len(),
        0 <= j < batch.len(),
    ensures
        batch[i].len() == if cfg.length == Length::Three {
            3nat
        } else {
            4nat
        },
        0 <= k < batch[i].len() ==> {
            let c = batch[i][k] as u32;
            0x61 <= c <= 0x7a || (cfg.charset == Charset::Alnum && 0x30 <= c <= 0x39)
        },
        i != j ==> batch[i] != batch[j],
{
    assert(drawn_from(cfg.charset.pool(), cfg.length.chars(), batch[i]));
    if 0 <= k < batch[i].len() {
        assert(in_pool(cfg.charset.pool(), batch[i][k]));
    }
}

/// `All` mode without a count leaves no handle out: each string of the asked length
/// over lowercase letters, or letters and digits, is in the batch.
pub proof fn law_all_mode_leaves_no_handle_out(
    cfg: GenerateConfig,
    batch: Seq<Seq<char>>,
    handle: Seq<char>,
)
    requires
        is_batch(cfg, batch),
        cfg.mode == GenMode::All,
        cfg.count is None,
        handle.len() == if cfg.length == Length::Three {
            3nat
        } else {
            4nat
        },
        forall|k: int|
            0 <= k < handle.len() ==> 0x61 <= (#[trigger] handle[k]) as int <= 0x7a || (cfg.charset
                == Charset::Alnum && 0x30 <= handle[k] as int <= 0x39),
    ensures
        batch.contains(handle),
{
    let pool = cfg.charset.pool();
    assert forall|k: int| 0 <= k < handle.len() implies in_pool(pool, #[trigger] handle[k]) by {
        let c = handle[k] as int;
        if 0x61 <= c <= 0x7a {
            assert(pool[c - 0x61] as char == handle[k]);
        } else {
            assert(pool[c - 0x30 + 26] as char == handle[k]);
        }
    }
    law_all_mode_covers_the_space(cfg, batch, handle);
}

/// `All` mode runs through the handles as a dictionary does, with the digits after
/// the letters: of two handles the earlier one has the earlier character where they
/// first differ. The law gives that place.
pub proof fn law_all_mode_runs_like_a_dictionary(
    cfg: GenerateConfig,
    batch: Seq<Seq<char>>,
    i: int,
    j: int,
) -> (k: int)
    requires
        is_batch(cfg, batch),
        cfg.mode == GenMode::All,
        0 <= i < j < batch.len(),
    ensures
        0 <= k < batch[i].len() == batch[j].len(),
        forall|l: int| 0 <= l < k ==> #[trigger] batch[i][l] == batch[j][l],
        ({
            let place = |c: char|
                if c as u32 >= 0x61 {
                    c as u32 - 0x61
                } else {
                    c as u32 - 0x30 + 26
                };
            place(batch[i][k]) < place(batch[j][k])
        }),
{
    let pool = cfg.charset.pool();
    let x = batch[i];
    let y = batch[j];
    assert(drawn_from(pool, cfg.length.chars(), x) && drawn_from(pool, cfg.length.chars(), y));
    law_all_mode_is_lexicographic(cfg, batch, i, j);
    let (k, p, q) = choose|k: int, p: int, q: int|
        #![trigger x.take(k), pool[p], pool[q]]
        {
            &&& 0 <= k < x.len()
            &&& k < y.len()
            &&& x.take(k) == y.take(k)
            &&& 0 <= p < q < pool.len()
            &&& x[k] == pool[p] as char
            &&& y[k] == pool[q] as char
        };
    assert forall|l: int| 0 <= l < k implies #[trigger] x[l] == y[l] by {
        assert(x.take(k)[l] == y.take(k)[l]);
    }
    k
}

} // verus!
