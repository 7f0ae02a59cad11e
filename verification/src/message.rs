//! The space of messages and the enumeration of message sequences.
//!
//! A sequence of `num_rounds` messages drawn from a space of `L` messages is
//! numbered by an index in `0..L^num_rounds`: the base-`L` digits of the index,
//! least significant first, name the messages of the last round first.

use vstd::arithmetic::power::pow;
use vstd::prelude::*;

verus! {

/// The messages a sender can choose from in each round.
pub struct MessageSpace<M>(Vec<M>);

/// The first `count` base-`base` digits of `index`, least significant first.
pub open spec fn base_digits(index: nat, base: nat, count: nat) -> Seq<nat>
    decreases count,
{
    if count == 0 {
        seq![]
    } else {
        seq![index % base] + base_digits(index / base, base, (count - 1) as nat)
    }
}

/// The first `count` digits of a number depend only on its remainder modulo
/// `base^count`.
pub proof fn lemma_base_digits_periodic(index: nat, base: nat, count: nat)
    requires
        base > 0,
    ensures
        base_digits((index % pow(base as int, count) as nat) as nat, base, count) == base_digits(index, base, count),
    decreases count,
{
    reveal(pow);
    if count > 0 {
        let p = pow(base as int, (count - 1) as nat);
        vstd::arithmetic::power::lemma_pow_positive(base as int, (count - 1) as nat);
        assert(pow(base as int, count) == base * p);
        let x = index % pow(base as int, count) as nat;
        vstd::arithmetic::div_mod::lemma_mod_mod(index as int, base as int, p);
        vstd::arithmetic::div_mod::lemma_mod_breakdown(index as int, base as int, p);
        let q = (index as int / base as int) % p;
        let r = index as int % base as int;
        assert(x == q * base + r) by (nonlinear_arith)
            requires
                x == base * q + r,
        ;
        vstd::arithmetic::div_mod::lemma_fundamental_div_mod_converse(x as int, base as int, q, r);
        lemma_base_digits_periodic(index / base, base, (count - 1) as nat);
        assert(((index / base) % p as nat) as nat == q);
    }
}

/// The code and the message ids of sequence `index` among the sequences of
/// `count` rounds over `base` messages are those of `index % base^count`.
pub proof fn lemma_sequence_periodic(index: nat, base: nat, count: nat)
    requires
        base > 0,
    ensures
        sequence_code((index % pow(base as int, count) as nat) as nat, base, count) == sequence_code(index, base, count),
        sequence_ids((index % pow(base as int, count) as nat) as nat, base, count) == sequence_ids(index, base, count),
{
    lemma_base_digits_periodic(index, base, count);
}

/// The lower-case hexadecimal digits, in order of value.
pub open spec fn hex_digits() -> Seq<char> {
    seq!['0', '1', '2', '3', '4', '5', '6', '7', '8', '9', 'a', 'b', 'c', 'd', 'e', 'f']
}

/// Digit `k` of a number in base `base`, least significant first, is its
/// quotient by `base^k` modulo `base`.
pub proof fn lemma_base_digit_value(index: nat, base: nat, count: nat, k: nat)
    requires
        base > 0,
        k < count,
    ensures
        base_digits(index, base, count).len() == count,
        base_digits(index, base, count)[k as int] == (index / (pow(base as int, k) as nat)) % base,
    decreases k,
{
    reveal(pow);
    lemma_base_digits_len(index, base, count);
    let rest = base_digits(index / base, base, (count - 1) as nat);
    assert(base_digits(index, base, count) == seq![index % base] + rest);
    if k > 0 {
        lemma_base_digit_value(index / base, base, (count - 1) as nat, (k - 1) as nat);
        let p = pow(base as int, (k - 1) as nat);
        vstd::arithmetic::power::lemma_pow_positive(base as int, (k - 1) as nat);
        vstd::arithmetic::div_mod::lemma_div_denominator(index as int, base as int, p);
        assert(pow(base as int, k) == base * p);
        assert(base_digits(index, base, count)[k as int] == rest[k - 1]);
        assert(((index / base) / (p as nat)) == index / ((base * p) as nat));
    } else {
        assert(pow(base as int, 0) == 1);
        assert(index / 1 == index);
    }
}

proof fn lemma_base_digits_len(index: nat, base: nat, count: nat)
    requires
        base > 0,
    ensures
        base_digits(index, base, count).len() == count,
    decreases count,
{
    if count > 0 {
        lemma_base_digits_len(index / base, base, (count - 1) as nat);
        assert(base_digits(index, base, count) == seq![index % base] + base_digits(
            index / base,
            base,
            (count - 1) as nat,
        ));
    }
}

/// The code of a message sequence spells each base-`base` digit of its index
/// with the standard lower-case hexadecimal digit: character `k` of the code
/// of `index` over `count` rounds is the hexadecimal digit of
/// `(index / base^k) % base`.
pub proof fn lemma_sequence_code_digits(index: nat, base: nat, count: nat)
    requires
        0 < base <= 16,
    ensures
        sequence_code(index, base, count).len() == count,
        forall|k: int|
            0 <= k < count ==> #[trigger] sequence_code(index, base, count)[k] == hex_digits()[((index / (pow(
                base as int,
                k as nat,
            ) as nat)) % base) as int],
{
    lemma_base_digits_len(index, base, count);
    assert forall|k: int| 0 <= k < count implies #[trigger] sequence_code(index, base, count)[k] == hex_digits()[((
    index / (pow(base as int, k as nat) as nat)) % base) as int] by {
        lemma_base_digit_value(index, base, count, k as nat);
        let d = base_digits(index, base, count)[k];
        assert(d < 16);
        lemma_hex_char(d);
    }
}

/// `hex_char` is the standard lower-case hexadecimal digit.
proof fn lemma_hex_char(d: nat)
    requires
        d < 16,
    ensures
        hex_char(d) == hex_digits()[d as int],
{
    if d == 0 { assert(hex_char(0) == '0'); }
}

/// The lower-case hexadecimal digit of a value below 16.
pub open spec fn hex_char(d: nat) -> char {
    if d < 10 {
        (48 + d) as char
    } else {
        (87 + d) as char
    }
}

/// The code of a message sequence: the hexadecimal digits of its index,
/// least significant first.
pub open spec fn sequence_code(index: nat, base: nat, count: nat) -> Seq<char> {
    base_digits(index, base, count).map_values(|d: nat| hex_char(d))
}

/// The message ids of a message sequence, in round order: the digits of its
/// index, most significant first.
pub open spec fn sequence_ids(index: nat, base: nat, count: nat) -> Seq<nat> {
    base_digits(index, base, count).reverse()
}

/// The number whose base-`base` digits, least significant first, are `ds`.
pub open spec fn digits_value(ds: Seq<nat>, base: nat) -> nat
    decreases ds.len(),
{
    if ds.len() == 0 {
        0
    } else {
        ds[0] + base * digits_value(ds.drop_first(), base)
    }
}

proof fn lemma_base_digits_injective(base: nat, count: nat, i: nat, j: nat)
    requires
        base > 0,
        i < pow(base as int, count),
        j < pow(base as int, count),
        i != j,
    ensures
        base_digits(i, base, count) != base_digits(j, base, count),
    decreases count,
{
    reveal(pow);
    if count == 0 {
        assert(pow(base as int, 0) == 1);
    } else {
        let p = pow(base as int, (count - 1) as nat);
        assert(pow(base as int, count) == base * p);
        let bi = base_digits(i, base, count);
        let bj = base_digits(j, base, count);
        if i % base == j % base {
            vstd::arithmetic::div_mod::lemma_fundamental_div_mod(i as int, base as int);
            vstd::arithmetic::div_mod::lemma_fundamental_div_mod(j as int, base as int);
            assert(i / base != j / base);
            assert(i / base < p) by (nonlinear_arith)
                requires
                    i < base * p,
                    base > 0,
                    i == base * (i / base) + i % base,
                    i % base >= 0;
            assert(j / base < p) by (nonlinear_arith)
                requires
                    j < base * p,
                    base > 0,
                    j == base * (j / base) + j % base,
                    j % base >= 0;
            lemma_base_digits_injective(base, (count - 1) as nat, i / base, j / base);
            let ti = base_digits(i / base, base, (count - 1) as nat);
            let tj = base_digits(j / base, base, (count - 1) as nat);
            if bi == bj {
                assert(ti =~= bi.drop_first());
                assert(tj =~= bj.drop_first());
            }
        } else {
            assert(bi[0] != bj[0]);
        }
    }
}

proof fn lemma_base_digits_of_value(ds: Seq<nat>, base: nat)
    requires
        base > 0,
        forall|k: int| 0 <= k < ds.len() ==> #[trigger] ds[k] < base,
    ensures
        digits_value(ds, base) < pow(base as int, ds.len()),
        base_digits(digits_value(ds, base), base, ds.len()) == ds,
    decreases ds.len(),
{
    reveal(pow);
    if ds.len() > 0 {
        let rest = ds.drop_first();
        assert forall|k: int| 0 <= k < rest.len() implies #[trigger] rest[k] < base by {
            assert(rest[k] == ds[k + 1]);
        }
        lemma_base_digits_of_value(rest, base);
        let v = digits_value(rest, base);
        let p = pow(base as int, rest.len());
        let d = ds[0];
        let x = digits_value(ds, base);
        assert(x == d + base * v);
        assert(x == v * base + d) by (nonlinear_arith)
            requires
                x == d + base * v;
        vstd::arithmetic::div_mod::lemma_fundamental_div_mod_converse(x as int, base as int, v as int, d as int);
        assert(x < base * p) by (nonlinear_arith)
            requires
                x == d + base * v,
                d < base,
                v < p,
                v >= 0;
        assert(pow(base as int, ds.len()) == base * p);
        assert(base_digits(x, base, ds.len()) =~= ds);
    }
}

/// The enumeration of message sequences by index is a bijection: the indices
/// `0..L^T` name pairwise distinct sequences of `T` message ids, and every
/// sequence of `T` ids below `L` is named by one of them.
pub proof fn lemma_sequence_enumeration(base: nat, count: nat)
    requires
        base > 0,
    ensures
        forall|i: nat, j: nat|
            i < pow(base as int, count) && j < pow(base as int, count) && i != j
                ==> #[trigger] sequence_ids(i, base, count) != #[trigger] sequence_ids(j, base, count),
        forall|ids: Seq<nat>|
            ids.len() == count && (forall|k: int| 0 <= k < ids.len() ==> #[trigger] ids[k] < base)
                ==> exists|i: nat| i < pow(base as int, count) && #[trigger] sequence_ids(i, base, count) == ids,
{
    assert forall|i: nat, j: nat|
        i < pow(base as int, count) && j < pow(base as int, count) && i != j
            implies #[trigger] sequence_ids(i, base, count) != #[trigger] sequence_ids(j, base, count) by {
        lemma_base_digits_injective(base, count, i, j);
        if sequence_ids(i, base, count) == sequence_ids(j, base, count) {
            assert(base_digits(i, base, count) =~= sequence_ids(i, base, count).reverse());
            assert(base_digits(j, base, count) =~= sequence_ids(j, base, count).reverse());
        }
    }
    assert forall|ids: Seq<nat>|
        ids.len() == count && (forall|k: int| 0 <= k < ids.len() ==> #[trigger] ids[k] < base)
            implies exists|i: nat| i < pow(base as int, count) && #[trigger] sequence_ids(i, base, count) == ids by {
        let ds = ids.reverse();
        assert forall|k: int| 0 <= k < ds.len() implies #[trigger] ds[k] < base by {
            assert(ds[k] == ids[ids.len() - 1 - k]);
        }
        lemma_base_digits_of_value(ds, base);
        let i = digits_value(ds, base);
        assert(sequence_ids(i, base, count) =~= ids);
    }
}

/// The lower-case hexadecimal digit of `d`.
fn hex_digit(d: u64) -> (c: char)
    requires
        d < 16,
    ensures
        c == hex_char(d as nat),
{
    if d < 10 {
        ((48 + d) as u8) as char
    } else {
        ((87 + d) as u8) as char
    }
}

/// `String::from_iter` over characters: the string holds `chars` in order.
#[verifier::external_body]
fn string_from_chars(chars: Vec<char>) -> (s: String)
    ensures
        s@ == chars@,
{
    String::from_iter(chars)
}

/// The digits of a vector of `u64` values, as natural numbers.
pub open spec fn nat_seq(s: Seq<u64>) -> Seq<nat> {
    s.map_values(|d: u64| d as nat)
}

/// The first `count` base-`base` digits of `index`, least significant first,
/// with their hexadecimal codes.
fn digits_of(index: u64, base: u64, count: usize) -> (r: (Vec<u64>, Vec<char>))
    requires
        count > 0 ==> 0 < base <= 16,
    ensures
        r.0@.len() == count,
        nat_seq(r.0@) == base_digits(index as nat, base as nat, count as nat),
        r.1@ == sequence_code(index as nat, base as nat, count as nat),
        forall|k: int| 0 <= k < r.0@.len() ==> #[trigger] r.0@[k] < base,
{
    let mut rem = index;
    let mut digits: Vec<u64> = Vec::new();
    let mut code: Vec<char> = Vec::new();
    let mut j: usize = 0;
    while j < count
        invariant
            count > 0 ==> 0 < base <= 16,
            j <= count,
            digits@.len() == j,
            base_digits(index as nat, base as nat, count as nat)
                == nat_seq(digits@) + base_digits(rem as nat, base as nat, (count - j) as nat),
            code@ == nat_seq(digits@).map_values(|d: nat| hex_char(d)),
            forall|k: int| 0 <= k < digits@.len() ==> #[trigger] digits@[k] < base,
        decreases count - j,
    {
        let d = rem % base;
        let ghost old_rem = rem;
        let ghost old_digits = digits@;
        rem = rem / base;
        digits.push(d);
        code.push(hex_digit(d));
        proof {
            let c = (count - j) as nat;
            assert(base_digits(old_rem as nat, base as nat, c)
                == seq![d as nat] + base_digits(rem as nat, base as nat, (c - 1) as nat));
            assert(nat_seq(digits@) =~= nat_seq(old_digits) + seq![d as nat]);
            assert(nat_seq(old_digits) + (seq![d as nat] + base_digits(rem as nat, base as nat, (c - 1) as nat))
                =~= nat_seq(digits@) + base_digits(rem as nat, base as nat, (c - 1) as nat));
            assert(code@ =~= nat_seq(digits@).map_values(|d: nat| hex_char(d)));
        }
        j = j + 1;
    }
    proof {
        assert(nat_seq(digits@) + base_digits(rem as nat, base as nat, 0) =~= nat_seq(digits@));
    }
    (digits, code)
}

impl<M> MessageSpace<M> {
    /// The messages of the space, in order.
    pub closed spec fn view(&self) -> Seq<M> {
        self.0@
    }

    /// The messages of the space, in order.
    pub fn messages(&self) -> (m: &Vec<M>)
        ensures
            m@ == self.view(),
    {
        &self.0
    }

    /// The number of messages in the space.
    pub fn len(&self) -> (l: usize)
        ensures
            l == self.view().len(),
    {
        self.0.len()
    }

    /// The number of message sequences of `num_rounds` rounds: `L^num_rounds`
    /// for a space of `L` messages.
    pub fn seq_size(&self, num_rounds: u32) -> (size: u64)
        requires
            pow(self.view().len() as int, num_rounds as nat) <= u64::MAX,
        ensures
            size == pow(self.view().len() as int, num_rounds as nat),
    {
        let l = self.0.len() as u64;
        let mut size: u64 = 1;
        let mut t: u32 = 0;
        proof {
            vstd::arithmetic::power::lemma_pow0(l as int);
        }
        while t < num_rounds
            invariant
                l == self.view().len(),
                t <= num_rounds,
                size == pow(l as int, t as nat),
                pow(l as int, num_rounds as nat) <= u64::MAX,
            decreases num_rounds - t,
        {
            proof {
                vstd::arithmetic::power::lemma_pow_adds(l as int, t as nat, 1);
                vstd::arithmetic::power::lemma_pow1(l as int);
                if l > 0 {
                    vstd::arithmetic::power::lemma_pow_increases(l as nat, (t + 1) as nat, num_rounds as nat);
                } else {
                    assert(size * l == 0) by (nonlinear_arith)
                        requires l == 0;
                }
            }
            size = size * l;
            t = t + 1;
        }
        size
    }

    /// The message sequence numbered `index` among the sequences of
    /// `num_rounds` rounds, with its code: the sequence holds the message named
    /// by each base-`L` digit of `index`, most significant first, and the code
    /// spells the digits in hexadecimal, least significant first.
    /// The space may hold at most 16 messages.
    pub fn seq_by_index(&self, index: u64, num_rounds: u32) -> (r: (Vec<&M>, String))
        requires
            num_rounds > 0 ==> 0 < self.view().len() <= 16,
        ensures
            r.0@.len() == num_rounds,
            forall|k: int|
                0 <= k < num_rounds ==> *#[trigger] r.0@[k]
                    == self.view()[sequence_ids(index as nat, self.view().len(), num_rounds as nat)[k] as int],
            r.1@ == sequence_code(index as nat, self.view().len(), num_rounds as nat),
    {
        let n = num_rounds as usize;
        let l = self.0.len() as u64;
        let (digits, code) = digits_of(index, l, n);
        let ghost bd = base_digits(index as nat, l as nat, n as nat);
        let mut msgs: Vec<&M> = Vec::new();
        let mut k: usize = n;
        while k > 0
            invariant
                l == self.view().len(),
                l <= usize::MAX,
                k <= n,
                digits@.len() == n,
                nat_seq(digits@) == bd,
                forall|t: int| 0 <= t < digits@.len() ==> #[trigger] digits@[t] < l,
                msgs@.len() == n - k,
                forall|t: int| 0 <= t < n - k ==> *#[trigger] msgs@[t] == self.view()[digits@[n - 1 - t] as int],
            decreases k,
        {
            k = k - 1;
            let d = digits[k];
            msgs.push(self.from_id(d as usize));
        }
        proof {
            assert forall|t: int| 0 <= t < num_rounds implies *#[trigger] msgs@[t]
                == self.view()[sequence_ids(index as nat, self.view().len(), num_rounds as nat)[t] as int] by {
                assert(bd[n - 1 - t] == digits@[n - 1 - t] as nat);
            }
        }
        (msgs, string_from_chars(code))
    }

    /// The code of the message sequence numbered `index` among the sequences of
    /// `num_rounds` rounds: the hexadecimal base-`L` digits of `index`, least
    /// significant first, as `seq_by_index` spells them.
    /// The space may hold at most 16 messages.
    pub fn index_to_string(&self, index: u64, num_rounds: u32) -> (code: String)
        requires
            num_rounds > 0 ==> 0 < self.view().len() <= 16,
        ensures
            code@ == sequence_code(index as nat, self.view().len(), num_rounds as nat),
    {
        let n = num_rounds as usize;
        let l = self.0.len() as u64;
        let (_digits, code) = digits_of(index, l, n);
        string_from_chars(code)
    }

    fn from_id(&self, id: usize) -> (m: &M)
        requires
            id < self.view().len(),
        ensures
            *m == self.view()[id as int],
    {
        &self.0[id]
    }
}

impl<M> From<Vec<M>> for MessageSpace<M> {
    /// The space that holds `messages`, in order.
    fn from(messages: Vec<M>) -> (space: Self)
        ensures
            space.view() == messages@,
    {
        MessageSpace(messages)
    }
}

impl<M> vstd::std_specs::convert::FromSpecImpl<Vec<M>> for MessageSpace<M> {
    open spec fn obeys_from_spec() -> bool {
        true
    }

    closed spec fn from_spec(messages: Vec<M>) -> Self {
        MessageSpace(messages)
    }
}

} // verus!
