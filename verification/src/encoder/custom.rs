use vstd::prelude::*;

use vstd::arithmetic::div_mod::lemma_div_decreases;
use vstd::arithmetic::div_mod::lemma_div_pos_is_pos;
use vstd::arithmetic::div_mod::lemma_fundamental_div_mod;
use vstd::arithmetic::div_mod::lemma_mod_bound;

use vstd::arithmetic::mul::lemma_mul_nonnegative;

use crate::encoder::traits::EncoderDecoder;
use crate::err::MixError;
use crate::MAX_U64;

verus! {

/// A usable alphabet: at least two characters, none repeated.
pub open spec fn valid_alphabet(a: Seq<char>) -> bool {
    a.len() >= 2 && a.no_duplicates()
}

/// The digit value of `c` in alphabet `a`: the index of its first
/// occurrence. Meaningful when `a` contains `c`.
pub open spec fn digit_of(a: Seq<char>, c: char) -> int
    decreases a.len(),
{
    if a.len() == 0 {
        0
    } else if a[0] == c {
        0
    } else {
        1 + digit_of(a.drop_first(), c)
    }
}

/// Every character of `s` has a digit value in `a`.
pub open spec fn all_in_alphabet(a: Seq<char>, s: Seq<char>) -> bool {
    forall|i: int| 0 <= i < s.len() ==> a.contains(#[trigger] s[i])
}

/// `i` is the first position of `s` holding a character outside `a`.
pub open spec fn first_invalid_at(a: Seq<char>, s: Seq<char>, i: int) -> bool {
    &&& 0 <= i < s.len()
    &&& !a.contains(s[i])
    &&& forall|j: int| 0 <= j < i ==> a.contains(#[trigger] s[j])
}

/// Position `j` cuts `s` at the first prefix whose value already passes
/// the 64-bit range.
pub open spec fn overflow_at(a: Seq<char>, s: Seq<char>, j: int) -> bool {
    &&& 1 <= j <= s.len()
    &&& str_value(a, s.take(j)) > MAX_U64 as int
    &&& forall|j2: int| 0 <= j2 < j ==> str_value(a, #[trigger] s.take(j2)) <= MAX_U64 as int
}

/// The base-`b` digits of `n`, most significant first; zero has none.
pub open spec fn digits_spec(b: int, n: int) -> Seq<int>
    decreases n,
    via digits_spec_decreases
{
    if n <= 0 || b < 2 {
        Seq::empty()
    } else {
        digits_spec(b, n / b).push(n % b)
    }
}

#[via_fn]
proof fn digits_spec_decreases(b: int, n: int) {
    if n > 0 && b >= 2 {
        lemma_div_decreases(n, b);
        lemma_div_pos_is_pos(n, b);
    }
}

/// The number that digit sequence `ds` denotes in base `b`, most
/// significant digit first.
pub open spec fn value_of_digits(b: int, ds: Seq<int>) -> int
    decreases ds.len(),
{
    if ds.len() == 0 {
        0
    } else {
        value_of_digits(b, ds.drop_last()) * b + ds.last()
    }
}

/// The number that string `s` denotes in alphabet `a`.
pub open spec fn str_value(a: Seq<char>, s: Seq<char>) -> int
    decreases s.len(),
{
    if s.len() == 0 {
        0
    } else {
        str_value(a, s.drop_last()) * a.len() + digit_of(a, s.last())
    }
}

/// Rendering of `value` in alphabet `a`: positional digits, most
/// significant first; zero is the single first character.
pub open spec fn encode_spec(a: Seq<char>, value: u64) -> Seq<char> {
    if value == 0 {
        seq![a[0]]
    } else {
        digits_spec(a.len() as int, value as int).map_values(|d: int| a[d])
    }
}

/// The digit of a contained character is an index of the alphabet and
/// reads back as that character.
proof fn lemma_digit_of_found(a: Seq<char>, c: char)
    requires
        a.contains(c),
    ensures
        0 <= digit_of(a, c) < a.len(),
        a[digit_of(a, c)] == c,
    decreases a.len(),
{
    if a[0] == c {
    } else {
        let i = choose|i: int| 0 <= i < a.len() && a[i] == c;
        assert(a.drop_first()[i - 1] == c);
        lemma_digit_of_found(a.drop_first(), c);
    }
}

/// In an alphabet without duplicates, the digit of the character at index
/// `i` is `i` itself.
proof fn lemma_digit_of_index(a: Seq<char>, i: int)
    requires
        a.no_duplicates(),
        0 <= i < a.len(),
    ensures
        digit_of(a, a[i]) == i,
    decreases a.len(),
{
    if i > 0 {
        let t = a.drop_first();
        assert(t.no_duplicates());
        assert(t[i - 1] == a[i]);
        lemma_digit_of_index(t, i - 1);
    }
}

/// Every digit of `digits_spec` lies below the base.
proof fn lemma_digits_bounds(b: int, n: int)
    requires
        b >= 2,
        n >= 0,
    ensures
        forall|i: int|
            0 <= i < digits_spec(b, n).len() ==> 0 <= #[trigger] digits_spec(b, n)[i] < b,
    decreases n,
{
    if n > 0 {
        lemma_div_pos_is_pos(n, b);
        lemma_div_decreases(n, b);
        lemma_digits_bounds(b, n / b);
        lemma_mod_bound(n, b);
        let ds = digits_spec(b, n);
        assert forall|i: int| 0 <= i < ds.len() implies 0 <= #[trigger] ds[i] < b by {
            if i < ds.len() - 1 {
                assert(ds[i] == digits_spec(b, n / b)[i]);
            }
        }
    }
}

/// The digits of `n` denote `n`.
proof fn lemma_digits_value(b: int, n: int)
    requires
        b >= 2,
        n >= 0,
    ensures
        value_of_digits(b, digits_spec(b, n)) == n,
    decreases n,
{
    if n > 0 {
        lemma_div_pos_is_pos(n, b);
        lemma_div_decreases(n, b);
        lemma_digits_value(b, n / b);
        lemma_fundamental_div_mod(n, b);
        let ds = digits_spec(b, n);
        assert(ds == digits_spec(b, n / b).push(n % b));
        assert(ds.drop_last() =~= digits_spec(b, n / b));
        assert(ds.last() == n % b);
        assert(value_of_digits(b, ds) == value_of_digits(b, ds.drop_last()) * b + ds.last());
        assert(b * (n / b) == (n / b) * b) by (nonlinear_arith);
    }
}

/// Reading the characters of a digit sequence back through the alphabet
/// gives the number the digits denote.
proof fn lemma_str_value_of_mapped(a: Seq<char>, ds: Seq<int>)
    requires
        valid_alphabet(a),
        forall|i: int| 0 <= i < ds.len() ==> 0 <= #[trigger] ds[i] < a.len(),
    ensures
        str_value(a, ds.map_values(|d: int| a[d])) == value_of_digits(a.len() as int, ds),
        all_in_alphabet(a, ds.map_values(|d: int| a[d])),
    decreases ds.len(),
{
    let m = ds.map_values(|d: int| a[d]);
    assert forall|i: int| 0 <= i < m.len() implies a.contains(#[trigger] m[i]) by {
        assert(m[i] == a[ds[i]]);
    }
    if ds.len() > 0 {
        lemma_str_value_of_mapped(a, ds.drop_last());
        assert(ds.drop_last().map_values(|d: int| a[d]) =~= m.drop_last());
        assert(m.last() == a[ds.last()]);
        lemma_digit_of_index(a, ds.last());
    }
}

/// Codec round trip (law): a value encoded in a valid alphabet uses only
/// characters of the alphabet, and the encoded string denotes the value
/// itself, so decoding gives it back.
pub proof fn lemma_codec_round_trip(a: Seq<char>, value: u64)
    requires
        valid_alphabet(a),
    ensures
        all_in_alphabet(a, encode_spec(a, value)),
        str_value(a, encode_spec(a, value)) == value as int,
{
    if value == 0 {
        let s = seq![a[0]];
        assert(s.drop_last() =~= Seq::<char>::empty());
        assert(s.last() == a[0]);
        lemma_digit_of_index(a, 0);
        assert(a.contains(a[0]));
        assert(str_value(a, s) == str_value(a, s.drop_last()) * a.len() + digit_of(a, s.last()));
        assert(str_value(a, s.drop_last()) == 0);
    } else {
        let b = a.len() as int;
        let ds = digits_spec(b, value as int);
        lemma_digits_bounds(b, value as int);
        lemma_digits_value(b, value as int);
        lemma_str_value_of_mapped(a, ds);
        assert(encode_spec(a, value) =~= ds.map_values(|d: int| a[d]));
    }
}

/// Index `j` of `a` repeats an earlier character.
pub open spec fn dup_at(a: Seq<char>, j: int) -> bool {
    &&& 0 <= j < a.len()
    &&& exists|i: int| 0 <= i < j && a[i] == a[j]
}

/// A codec over a caller-defined alphabet: a 64-bit value is written as a
/// string of alphabet characters, most significant digit first, and read
/// back by positional accumulation.
#[derive(Debug)]
pub struct CustomEncoder {
    base: Vec<char>,
}

impl View for CustomEncoder {
    type V = Seq<char>;

    closed spec fn view(&self) -> Seq<char> {
        self.base@
    }
}

/// Whether `v` holds `c`.
fn vec_contains(v: &Vec<char>, c: char) -> (b: bool)
    ensures
        b == v@.contains(c),
{
    let mut t: usize = 0;
    while t < v.len()
        invariant
            t <= v@.len(),
            forall|j: int| 0 <= j < t ==> v@[j] != c,
        decreases v@.len() - t,
    {
        if v[t] == c {
            return true;
        }
        t = t + 1;
    }
    false
}

impl CustomEncoder {
    /// A usable codec: built over a valid alphabet.
    pub open spec fn wf(&self) -> bool {
        valid_alphabet(self@)
    }

    /// Builds a codec over the characters of `base`, in order. Fails on
    /// the first repeated character, or when fewer than two characters
    /// are given.
    pub fn new(base: &str) -> (r: Result<CustomEncoder, MixError>)
        ensures
            valid_alphabet(base@) ==> (r matches Ok(enc) && enc@ == base@ && enc.wf()),
            (exists|j: int| dup_at(base@, j)) ==> (exists|j: int|
                #[trigger] dup_at(base@, j) && (forall|j2: int| 0 <= j2 < j ==> !dup_at(base@, j2))
                    && r == Err::<CustomEncoder, MixError>(
                    MixError::DuplicateCharacter { c: base@[j] },
                )),
            !(exists|j: int| dup_at(base@, j)) && base@.len() < 2 ==> r == Err::<
                CustomEncoder,
                MixError,
            >(MixError::AlphabetTooShort),
    {
        let n = base.unicode_len();
        let mut table: Vec<char> = Vec::new();
        let mut idx: usize = 0;
        while idx < n
            invariant
                idx <= n,
                n == base@.len(),
                table@ =~= base@.take(idx as int),
                forall|j: int| 0 <= j < idx ==> !dup_at(base@, j),
            decreases n - idx,
        {
            let c = base.get_char(idx);
            if vec_contains(&table, c) {
                proof {
                    let i = choose|i: int| 0 <= i < table@.len() && table@[i] == c;
                    assert(base@[i] == base@[idx as int]);
                    assert(dup_at(base@, idx as int));
                }
                return Err(MixError::DuplicateCharacter { c });
            }
            table.push(c);
            proof {
                assert(table@ =~= base@.take(idx as int + 1));
                assert(forall|i: int| 0 <= i < idx ==> base@.take(idx as int)[i] == base@[i]);
                assert(!dup_at(base@, idx as int));
            }
            idx = idx + 1;
        }
        if table.len() < 2 {
            return Err(MixError::AlphabetTooShort);
        }
        proof {
            assert(table@ =~= base@);
            assert forall|p: int, q: int|
                0 <= p < base@.len() && 0 <= q < base@.len() && p != q implies base@[p] != base@[q]
            by {
                if p < q {
                    assert(!dup_at(base@, q));
                } else {
                    assert(!dup_at(base@, p));
                }
            }
            assert(base@.no_duplicates());
        }
        Ok(CustomEncoder { base: table })
    }

    /// Writes the digits of `n`, most significant first; zero writes
    /// nothing.
    fn encode_digits(&self, n: u64) -> (s: String)
        requires
            self.wf(),
        ensures
            s@ == digits_spec(self@.len() as int, n as int).map_values(|d: int| self@[d]),
        decreases n,
    {
        if n == 0 {
            let s = String::new();
            proof {
                assert(digits_spec(self@.len() as int, 0).map_values(|d: int| self@[d])
                    =~= Seq::<char>::empty());
            }
            return s;
        }
        let b = self.base.len() as u64;
        let d = n % b;
        let q = n / b;
        proof {
            lemma_div_decreases(n as int, b as int);
        }
        let mut s = self.encode_digits(q);
        push_char(&mut s, self.base[d as usize]);
        proof {
            let bb = self@.len() as int;
            assert(digits_spec(bb, n as int) == digits_spec(bb, (n as int) / bb).push(
                (n as int) % bb,
            ));
            assert(digits_spec(bb, q as int).map_values(|dd: int| self@[dd]).push(self@[d as int])
                =~= digits_spec(bb, n as int).map_values(|dd: int| self@[dd]));
        }
        s
    }

    /// Digit value of `c`: the index of its first occurrence in the
    /// alphabet, if any.
    fn digit_lookup(&self, c: char) -> (r: Option<usize>)
        ensures
            match r {
                Some(d) => self@.contains(c) && d < self@.len() && d as int == digit_of(self@, c),
                None => !self@.contains(c),
            },
    {
        let mut t: usize = 0;
        while t < self.base.len()
            invariant
                t <= self@.len(),
                forall|j: int| 0 <= j < t ==> self@[j] != c,
            decreases self@.len() - t,
        {
            if self.base[t] == c {
                proof {
                    lemma_digit_of_first(self@, t as int, c);
                }
                return Some(t);
            }
            t = t + 1;
        }
        None
    }
}

/// Dropping the last character keeps every remaining one in the alphabet.
proof fn lemma_all_in_drop_last(a: Seq<char>, s: Seq<char>)
    requires
        all_in_alphabet(a, s),
        s.len() > 0,
    ensures
        all_in_alphabet(a, s.drop_last()),
{
    assert forall|i: int| 0 <= i < s.drop_last().len() implies a.contains(
        #[trigger] s.drop_last()[i],
    ) by {
        assert(s.drop_last()[i] == s[i]);
    }
}

/// The value a string denotes is never negative.
proof fn lemma_str_value_nonneg(a: Seq<char>, s: Seq<char>)
    requires
        valid_alphabet(a),
        all_in_alphabet(a, s),
    ensures
        str_value(a, s) >= 0,
    decreases s.len(),
{
    if s.len() > 0 {
        lemma_all_in_drop_last(a, s);
        lemma_str_value_nonneg(a, s.drop_last());
        assert(a.contains(s.last()));
        lemma_digit_of_found(a, s.last());
        lemma_mul_nonnegative(str_value(a, s.drop_last()), a.len() as int);
    }
}

/// Every prefix of a string denotes at most what the string denotes.
proof fn lemma_str_value_prefix(a: Seq<char>, s: Seq<char>, j: int)
    requires
        valid_alphabet(a),
        all_in_alphabet(a, s),
        0 <= j <= s.len(),
    ensures
        str_value(a, s.take(j)) <= str_value(a, s),
    decreases s.len(),
{
    if j == s.len() {
        assert(s.take(j) =~= s);
    } else {
        let t = s.drop_last();
        lemma_all_in_drop_last(a, s);
        lemma_str_value_prefix(a, t, j);
        assert(s.take(j) =~= t.take(j));
        lemma_str_value_nonneg(a, t);
        assert(a.contains(s.last()));
        lemma_digit_of_found(a, s.last());
        let v = str_value(a, t);
        let b = a.len() as int;
        assert(v * b >= v) by (nonlinear_arith)
            requires
                v >= 0,
                b >= 2,
        ;
    }
}

/// Relies on `String::push`: appends exactly the given character.
#[verifier::external_body]
fn push_char(s: &mut String, c: char)
    ensures
        final(s)@ == old(s)@.push(c),
{
    s.push(c);
}

impl EncoderDecoder for CustomEncoder {
    open spec fn alphabet(&self) -> Seq<char> {
        self@
    }

    fn encode(&self, id: u64) -> (r: Result<String, MixError>) {
        if id == 0 {
            let mut s = String::new();
            push_char(&mut s, self.base[0]);
            proof {
                assert(s@ =~= seq![self@[0]]);
            }
            Ok(s)
        } else {
            let s = self.encode_digits(id);
            proof {
                assert(s@ =~= encode_spec(self@, id));
            }
            Ok(s)
        }
    }

    fn decode(&self, text: String) -> (r: Result<u64, MixError>) {
        let ghost a = self@;
        let s = text.as_str();
        let n = s.unicode_len();
        let mut digits: Vec<usize> = Vec::new();
        let mut i: usize = 0;
        while i < n
            invariant
                self.wf(),
                a == self@,
                i <= n,
                n == text@.len(),
                s@ == text@,
                digits@.len() == i,
                forall|j: int| 0 <= j < i ==> a.contains(#[trigger] text@[j]),
                forall|j: int|
                    0 <= j < i ==> (#[trigger] digits@[j]) as int == digit_of(a, text@[j])
                        && digits@[j] < a.len(),
            decreases n - i,
        {
            let c = s.get_char(i);
            match self.digit_lookup(c) {
                Some(d) => {
                    digits.push(d);
                },
                None => {
                    proof {
                        assert(first_invalid_at(a, text@, i as int));
                    }
                    return Err(MixError::InvalidCharacter { c });
                },
            }
            i = i + 1;
        }
        let b128 = self.base.len() as u128;
        let mut acc: u64 = 0;
        let mut k: usize = 0;
        proof {
            assert(text@.take(0) =~= Seq::<char>::empty());
        }
        while k < n
            invariant
                self.wf(),
                a == self@,
                k <= n,
                n == text@.len(),
                digits@.len() == n,
                forall|j: int| 0 <= j < n ==> a.contains(#[trigger] text@[j]),
                forall|j: int|
                    0 <= j < n ==> (#[trigger] digits@[j]) as int == digit_of(a, text@[j])
                        && digits@[j] < a.len(),
                b128 == a.len(),
                b128 <= 0xffff_ffff_ffff_ffffu128,
                acc as int == str_value(a, text@.take(k as int)),
                forall|j2: int|
                    0 <= j2 <= k ==> str_value(a, #[trigger] text@.take(j2)) <= MAX_U64 as int,
            decreases n - k,
        {
            let d = digits[k];
            proof {
                assert((acc as int) * (b128 as int) + (d as int)
                    < 0x1_0000_0000_0000_0000_0000_0000_0000_0000) by (nonlinear_arith)
                    requires
                        acc as int <= 0xffff_ffff_ffff_ffff,
                        b128 as int <= 0xffff_ffff_ffff_ffff,
                        0 <= (d as int) < b128 as int,
                ;
            }
            let wide: u128 = acc as u128 * b128 + d as u128;
            proof {
                let t = text@.take(k as int + 1);
                assert(t.drop_last() =~= text@.take(k as int));
                assert(t.last() == text@[k as int]);
                assert(str_value(a, t) == str_value(a, text@.take(k as int)) * (a.len() as int)
                    + digit_of(a, text@[k as int]));
            }
            if wide > (MAX_U64 as u128) {
                proof {
                    assert(overflow_at(a, text@, k as int + 1));
                    lemma_str_value_prefix(a, text@, k as int + 1);
                }
                return Err(MixError::Overflow { value: wide, limit: MAX_U64 });
            }
            acc = wide as u64;
            k = k + 1;
        }
        proof {
            assert(text@.take(n as int) =~= text@);
        }
        Ok(acc)
    }
}

/// The digit of a character equals any index that holds it and is
/// preceded by no other occurrence.
proof fn lemma_digit_of_first(a: Seq<char>, i: int, c: char)
    requires
        0 <= i < a.len(),
        a[i] == c,
        forall|j: int| 0 <= j < i ==> a[j] != c,
    ensures
        digit_of(a, c) == i,
    decreases a.len(),
{
    if i > 0 {
        let t = a.drop_first();
        assert(t[i - 1] == c);
        assert(forall|j: int| 0 <= j < i - 1 ==> t[j] == a[j + 1] && #[trigger] t[j] != c);
        lemma_digit_of_first(t, i - 1, c);
    }
}

} // verus!
