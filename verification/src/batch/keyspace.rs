//! The names of a given length in a fixed order, and the search for the
//! first of them that has not been issued.
//!
//! A name of `n` letters is counted like a number of `n` digits to the
//! base 52, the first letter being the lowest digit.

use crate::batch::{all_letters, is_letter, is_token, lemma_letters, pairwise_distinct, CharSet};
use crate::text::string_views;
use vstd::prelude::*;
use vstd::relations::injective_on;
use vstd::set_lib::{lemma_int_range, lemma_len_subset, lemma_map_size, set_int_range};

verus! {

/// How many letters there are.
pub const LETTERS: usize = 52;

/// Every name of a length from `min` to `max` has been issued.
pub open spec fn is_exhausted(used: Seq<Seq<char>>, min: int, max: int) -> bool {
    forall|s: Seq<char>| #[trigger] is_token(s, min, max) ==> used.contains(s)
}

/// `d` holds `n` digits to the base 52.
pub open spec fn is_digits(d: Seq<usize>, n: int) -> bool {
    &&& d.len() == n
    &&& forall|i: int| 0 <= i < d.len() ==> #[trigger] d[i] < LETTERS
}

/// The number that the digits stand for, the first being the lowest.
pub open spec fn rank(d: Seq<usize>) -> nat
    decreases d.len(),
{
    if d.len() == 0 {
        0
    } else {
        d[0] as nat + 52 * rank(d.drop_first())
    }
}

/// 52 to the power of `n`.
pub open spec fn power(n: nat) -> nat
    decreases n,
{
    if n == 0 {
        1
    } else {
        52 * power((n - 1) as nat)
    }
}

/// The name that the digits stand for: each digit is the place of a
/// letter among the letters.
pub open spec fn word(d: Seq<usize>) -> Seq<char> {
    Seq::new(d.len(), |i: int| CharSet::Letters.members()[d[i] as int])
}

/// The place of a letter among the letters.
pub open spec fn letter_index(c: char) -> usize {
    if 'a' <= c && c <= 'z' {
        (c as int - 'a' as int) as usize
    } else {
        (26 + c as int - 'A' as int) as usize
    }
}

/// The digits that a name stands for.
pub open spec fn digits_of(s: Seq<char>) -> Seq<usize> {
    Seq::new(s.len(), |i: int| letter_index(s[i]))
}

/// The name `s` comes before the name `t` in the order of counting: it
/// is shorter, or as long and stands for a lesser number.
pub open spec fn precedes(s: Seq<char>, t: Seq<char>) -> bool {
    s.len() < t.len() || (s.len() == t.len() && rank(digits_of(s)) < rank(digits_of(t)))
}

/// `name` is the first name of a length from `min` to `max`, in the order
/// of counting, that has not been issued.
pub open spec fn is_first_unused(name: Seq<char>, used: Seq<Seq<char>>, min: int, max: int) -> bool {
    &&& is_token(name, min, max)
    &&& !used.contains(name)
    &&& forall|s: Seq<char>| #[trigger] is_token(s, min, max) && precedes(s, name) ==> used.contains(s)
}

/// A number of `n` digits is less than 52 to the power of `n`.
proof fn lemma_rank_bound(d: Seq<usize>)
    requires
        is_digits(d, d.len() as int),
    ensures
        rank(d) < power(d.len()),
    decreases d.len(),
{
    if d.len() > 0 {
        let rest = d.drop_first();
        assert(is_digits(rest, rest.len() as int)) by {
            assert forall|i: int| 0 <= i < rest.len() implies #[trigger] rest[i] < LETTERS by {
                assert(rest[i] == d[i + 1]);
            }
        }
        lemma_rank_bound(rest);
        assert(d[0] < LETTERS);
    }
}

/// Two numbers of as many digits that are equal have the same digits.
proof fn lemma_rank_one_to_one(a: Seq<usize>, b: Seq<usize>)
    requires
        is_digits(a, a.len() as int),
        is_digits(b, a.len() as int),
        rank(a) == rank(b),
    ensures
        a == b,
    decreases a.len(),
{
    if a.len() > 0 {
        let ra = a.drop_first();
        let rb = b.drop_first();
        assert(is_digits(ra, ra.len() as int)) by {
            assert forall|i: int| 0 <= i < ra.len() implies #[trigger] ra[i] < LETTERS by {
                assert(ra[i] == a[i + 1]);
            }
        }
        assert(is_digits(rb, ra.len() as int)) by {
            assert forall|i: int| 0 <= i < rb.len() implies #[trigger] rb[i] < LETTERS by {
                assert(rb[i] == b[i + 1]);
            }
        }
        assert(a[0] < LETTERS);
        assert(b[0] < LETTERS);
        assert(rank(ra) == rank(rb));
        lemma_rank_one_to_one(ra, rb);
        assert(a =~= seq![a[0]] + ra);
        assert(b =~= seq![b[0]] + rb);
    } else {
        assert(a =~= b);
    }
}

/// The number whose lowest `k` digits are 51 and whose next digit is
/// less: one more is the number with zeros in their place and the next
/// digit raised by one.
proof fn lemma_rank_carry(old: Seq<usize>, new: Seq<usize>, k: int)
    requires
        0 <= k < old.len(),
        new.len() == old.len(),
        forall|i: int| 0 <= i < k ==> old[i] == 51 && new[i] == 0,
        old[k] < 51,
        new[k] == old[k] + 1,
        forall|i: int| k < i < old.len() ==> new[i] == old[i],
    ensures
        rank(new) == rank(old) + 1,
    decreases k,
{
    if k == 0 {
        assert(new.drop_first() =~= old.drop_first());
    } else {
        lemma_rank_carry(old.drop_first(), new.drop_first(), k - 1);
    }
}

/// The number whose digits are all 51 is the greatest of its length.
proof fn lemma_rank_greatest(d: Seq<usize>)
    requires
        forall|i: int| 0 <= i < d.len() ==> d[i] == 51,
    ensures
        rank(d) + 1 == power(d.len()),
    decreases d.len(),
{
    if d.len() > 0 {
        lemma_rank_greatest(d.drop_first());
    }
}

/// The number whose digits are all zero is zero.
proof fn lemma_rank_least(d: Seq<usize>)
    requires
        forall|i: int| 0 <= i < d.len() ==> d[i] == 0,
    ensures
        rank(d) == 0,
    decreases d.len(),
{
    if d.len() > 0 {
        lemma_rank_least(d.drop_first());
    }
}

/// A name stands for digits that stand for the name.
proof fn lemma_word_of_digits(s: Seq<char>)
    requires
        all_letters(s),
    ensures
        is_digits(digits_of(s), s.len() as int),
        word(digits_of(s)) == s,
{
    let d = digits_of(s);
    assert forall|i: int| 0 <= i < s.len() implies #[trigger] d[i] < LETTERS
        && CharSet::Letters.members()[d[i] as int] == s[i] by {
        assert(is_letter(s[i]));
    }
    assert(word(d) =~= s);
}

/// Digits stand for a name that stands for the digits.
proof fn lemma_digits_of_word(d: Seq<usize>)
    requires
        is_digits(d, d.len() as int),
    ensures
        digits_of(word(d)) == d,
{
    assert forall|i: int| 0 <= i < d.len() implies digits_of(word(d))[i] == d[i] by {
        assert(d[i] < LETTERS);
        assert(letter_index(CharSet::Letters.members()[d[i] as int]) == d[i]);
    }
    assert(digits_of(word(d)) =~= d);
}

/// Digits stand for a name of as many letters.
proof fn lemma_word_is_name(d: Seq<usize>)
    requires
        is_digits(d, d.len() as int),
    ensures
        word(d).len() == d.len(),
        all_letters(word(d)),
{
    lemma_letters();
    assert forall|i: int| 0 <= i < word(d).len() implies is_letter(#[trigger] word(d)[i]) by {
        assert(d[i] < LETTERS);
        assert(CharSet::Letters.members().contains(CharSet::Letters.members()[d[i] as int]));
    }
}

/// The `n` digits of the number `r`, the lowest first.
pub open spec fn digits_at(r: nat, n: nat) -> Seq<usize>
    decreases n,
{
    if n == 0 {
        Seq::empty()
    } else {
        seq![(r % 52) as usize] + digits_at(r / 52, (n - 1) as nat)
    }
}

/// The digits of a number below 52 to the power of `n` stand for the number.
proof fn lemma_digits_at(r: nat, n: nat)
    requires
        r < power(n),
    ensures
        is_digits(digits_at(r, n), n as int),
        rank(digits_at(r, n)) == r,
    decreases n,
{
    if n > 0 {
        let rest = digits_at(r / 52, (n - 1) as nat);
        lemma_digits_at(r / 52, (n - 1) as nat);
        let d = digits_at(r, n);
        assert(d.drop_first() =~= rest);
        assert forall|i: int| 0 <= i < d.len() implies #[trigger] d[i] < LETTERS by {
            if i > 0 {
                assert(d[i] == rest[i - 1]);
            }
        }
    }
}

/// Different digits stand for different names.
proof fn lemma_word_one_to_one(a: Seq<usize>, b: Seq<usize>)
    requires
        is_digits(a, a.len() as int),
        is_digits(b, a.len() as int),
        word(a) == word(b),
    ensures
        a == b,
{
    assert forall|i: int| 0 <= i < a.len() implies a[i] == b[i] by {
        assert(a[i] < LETTERS);
        assert(b[i] < LETTERS);
        assert(word(a)[i] == CharSet::Letters.members()[a[i] as int]);
        assert(word(b)[i] == CharSet::Letters.members()[b[i] as int]);
        assert(letter_index(CharSet::Letters.members()[a[i] as int]) == a[i]);
        assert(letter_index(CharSet::Letters.members()[b[i] as int]) == b[i]);
    }
    assert(a =~= b);
}

/// Numbers below `a` that are given different numbers below `b` each are
/// no more than `b`.
proof fn lemma_pigeonhole(f: spec_fn(int) -> int, a: int, b: int)
    requires
        0 <= a,
        0 <= b,
        forall|i: int| 0 <= i < a ==> 0 <= #[trigger] f(i) < b,
        forall|i: int, j: int| 0 <= i < j < a ==> #[trigger] f(i) != #[trigger] f(j),
    ensures
        a <= b,
{
    let x = set_int_range(0, a);
    let y = x.map(f);
    lemma_int_range(0, a);
    lemma_int_range(0, b);
    assert(injective_on(f, x)) by {
        assert forall|i: int, j: int|
            x.contains(i) && x.contains(j) && #[trigger] f(i) == #[trigger] f(j) implies i
            == j by {
            if i < j {
                assert(f(i) != f(j));
            } else if j < i {
                assert(f(j) != f(i));
            }
        }
    }
    lemma_map_size(x, y, f);
    assert(y.subset_of(set_int_range(0, b))) by {
        assert forall|v: int| y.contains(v) implies set_int_range(0, b).contains(v) by {
            let i = choose|i: int| x.contains(i) && v == f(i);
            assert(0 <= f(i) < b);
        }
    }
    lemma_len_subset(y, set_int_range(0, b));
}

/// Fewer names than there are of `len` letters leave one of them unused.
pub proof fn lemma_names_suffice(used: Seq<Seq<char>>, len: nat)
    requires
        used.len() < power(len),
    ensures
        !is_exhausted(used, len as int, len as int),
{
    if is_exhausted(used, len as int, len as int) {
        let f = |r: int| used.index_of(word(digits_at(r as nat, len)));
        let a = power(len) as int;
        assert forall|r: int| 0 <= r < a implies 0 <= #[trigger] f(r) < used.len() && used[f(r)]
            == word(digits_at(r as nat, len)) by {
            let d = digits_at(r as nat, len);
            lemma_digits_at(r as nat, len);
            lemma_word_is_name(d);
            assert(is_token(word(d), len as int, len as int));
            assert(used.contains(word(d)));
        }
        assert forall|r: int, s: int| 0 <= r < s < a implies #[trigger] f(r) != #[trigger] f(
            s,
        ) by {
            let d = digits_at(r as nat, len);
            let e = digits_at(s as nat, len);
            lemma_digits_at(r as nat, len);
            lemma_digits_at(s as nat, len);
            if f(r) == f(s) {
                assert(used[f(r)] == word(d));
                assert(used[f(s)] == word(e));
                lemma_word_one_to_one(d, e);
            }
        }
        lemma_pigeonhole(f, a, used.len() as int);
    }
}

/// There are no more than 52 different names of one letter.
pub proof fn lemma_single_letters(names: Seq<Seq<char>>)
    requires
        pairwise_distinct(names),
        forall|i: int| 0 <= i < names.len() ==> is_token(#[trigger] names[i], 1, 1),
    ensures
        names.len() <= 52,
{
    let f = |i: int| letter_index(names[i][0]) as int;
    assert forall|i: int| 0 <= i < names.len() implies 0 <= #[trigger] f(i) < 52 by {
        assert(is_token(names[i], 1, 1));
        assert(is_letter(names[i][0]));
    }
    assert forall|i: int, j: int| 0 <= i < j < names.len() implies #[trigger] f(i)
        != #[trigger] f(j) by {
        assert(is_token(names[i], 1, 1));
        assert(is_token(names[j], 1, 1));
        assert(is_letter(names[i][0]));
        assert(is_letter(names[j][0]));
        if f(i) == f(j) {
            assert(names[i][0] == names[j][0]);
            assert(names[i] =~= names[j]);
        }
    }
    lemma_pigeonhole(f, names.len() as int, 52);
}

/// Where the names of some length have not all been issued, the names
/// of a range of lengths that holds this length have not either.
pub proof fn lemma_exhausted_within(used: Seq<Seq<char>>, min: int, max: int, len: int)
    requires
        min <= len <= max,
        !is_exhausted(used, len, len),
    ensures
        !is_exhausted(used, min, max),
{
    let s = choose|s: Seq<char>| #[trigger] is_token(s, len, len) && !used.contains(s);
    assert(is_token(s, min, max));
}

/// There are at least 2704 names of two letters or more, and more names
/// of twelve letters than a vector can hold.
pub proof fn lemma_power_bounds(n: nat)
    ensures
        n >= 2 ==> power(n) >= 2704,
        power(12) > usize::MAX,
    decreases n,
{
    reveal_with_fuel(power, 13);
    if n > 2 {
        lemma_power_bounds((n - 1) as nat);
    }
}

/// Decides whether `name` has been issued.
pub fn is_used(used: &Vec<String>, name: &String) -> (b: bool)
    ensures
        b == string_views(used@).contains(name@),
{
    let mut i: usize = 0;
    while i < used.len()
        invariant
            i <= used.len(),
            forall|j: int| 0 <= j < i ==> string_views(used@)[j] != name@,
        decreases used.len() - i,
    {
        if used[i] == *name {
            proof {
                assert(string_views(used@)[i as int] == name@);
            }
            return true;
        }
        i += 1;
    }
    false
}

/// The name that the digits stand for.
fn word_of(digits: &Vec<usize>, letters: &Vec<char>) -> (s: String)
    requires
        letters@ == CharSet::Letters.members(),
        is_digits(digits@, digits@.len() as int),
    ensures
        s@ == word(digits@),
{
    let mut s = String::new();
    let mut i: usize = 0;
    while i < digits.len()
        invariant
            i <= digits.len(),
            letters@ == CharSet::Letters.members(),
            is_digits(digits@, digits@.len() as int),
            s@ == word(digits@).take(i as int),
        decreases digits.len() - i,
    {
        assert(digits@[i as int] < LETTERS);
        assert(letters@.len() == 52);
        s.push(letters[digits[i]]);
        proof {
            assert(s@ =~= word(digits@).take(i + 1));
        }
        i += 1;
    }
    proof {
        assert(word(digits@).take(digits.len() as int) =~= word(digits@));
    }
    s
}

/// The first name of `len` letters, in the order of counting, that has
/// not been issued; `None` where every name of `len` letters has.
fn first_unused_of_length(len: u32, used: &Vec<String>, letters: &Vec<char>) -> (r: Option<
    String,
>)
    requires
        letters@ == CharSet::Letters.members(),
    ensures
        match r {
            Some(name) => is_first_unused(name@, string_views(used@), len as int, len as int),
            None => is_exhausted(string_views(used@), len as int, len as int),
        },
{
    let ghost issued = string_views(used@);
    let mut digits: Vec<usize> = Vec::new();
    let mut n: u32 = 0;
    while n < len
        invariant
            n <= len,
            digits@.len() == n,
            forall|i: int| 0 <= i < digits@.len() ==> digits@[i] == 0,
        decreases len - n,
    {
        digits.push(0);
        n += 1;
    }
    proof {
        lemma_rank_least(digits@);
    }
    loop
        invariant
            issued == string_views(used@),
            letters@ == CharSet::Letters.members(),
            is_digits(digits@, len as int),
            forall|d: Seq<usize>|
                is_digits(d, len as int) && rank(d) < rank(digits@) ==> issued.contains(
                    #[trigger] word(d),
                ),
        decreases power(len as nat) - rank(digits@),
    {
        let ghost old = digits@;
        proof {
            lemma_rank_bound(old);
            lemma_word_is_name(old);
        }
        let candidate = word_of(&digits, letters);
        if !is_used(used, &candidate) {
            proof {
                lemma_digits_of_word(old);
                assert forall|s: Seq<char>| #[trigger]
                    is_token(s, len as int, len as int) && precedes(
                        s,
                        candidate@,
                    ) implies issued.contains(s) by {
                    lemma_word_of_digits(s);
                    assert(issued.contains(word(digits_of(s))));
                }
            }
            return Some(candidate);
        }
        let mut k: usize = 0;
        while k < digits.len() && digits[k] == 51
            invariant
                k <= digits@.len(),
                digits@.len() == old.len(),
                forall|i: int| 0 <= i < k ==> old[i] == 51 && digits@[i] == 0,
                forall|i: int| k <= i < old.len() ==> digits@[i] == old[i],
            decreases digits@.len() - k,
        {
            digits.set(k, 0);
            k += 1;
        }
        if k == digits.len() {
            proof {
                lemma_rank_greatest(old);
                assert forall|s: Seq<char>| #[trigger]
                    is_token(s, len as int, len as int) implies issued.contains(s) by {
                    lemma_word_of_digits(s);
                    let d = digits_of(s);
                    lemma_rank_bound(d);
                    if rank(d) == rank(old) {
                        lemma_rank_one_to_one(d, old);
                    }
                    assert(issued.contains(word(d)));
                }
            }
            return None;
        }
        assert(old[k as int] < LETTERS);
        let ghost zeroed = digits@;
        let next: usize = digits[k] + 1;
        digits.set(k, next);
        proof {
            assert forall|i: int| 0 <= i < digits@.len() implies #[trigger] digits@[i]
                < LETTERS by {
                if i < k {
                    assert(old[i] == 51 && zeroed[i] == 0);
                    assert(digits@[i] == zeroed[i]);
                } else if i == k {
                    assert(zeroed[i] == old[i]);
                    assert(digits@[i] == next);
                } else if i > k {
                    assert(digits@[i] == zeroed[i]);
                    assert(zeroed[i] == old[i]);
                    assert(old[i] < LETTERS);
                }
            }
            assert forall|i: int| 0 <= i < k implies old[i] == 51 && digits@[i] == 0 by {
                assert(old[i] == 51 && zeroed[i] == 0);
                assert(digits@[i] == zeroed[i]);
            }
            assert forall|i: int| k < i < old.len() implies digits@[i] == old[i] by {
                assert(digits@[i] == zeroed[i]);
            }
            lemma_rank_carry(old, digits@, k as int);
            lemma_rank_bound(digits@);
            assert forall|d: Seq<usize>|
                is_digits(d, len as int) && rank(d) < rank(digits@) implies issued.contains(
                #[trigger] word(d),
            ) by {
                if rank(d) == rank(old) {
                    lemma_rank_one_to_one(d, old);
                }
            }
        }
    }
}

/// The first name of a length from `min` to `max`, shorter names first,
/// that has not been issued; `None` where every such name has.
pub fn first_unused(min: u32, max: u32, used: &Vec<String>) -> (r: Option<String>)
    ensures
        match r {
            Some(name) => is_first_unused(name@, string_views(used@), min as int, max as int),
            None => is_exhausted(string_views(used@), min as int, max as int),
        },
{
    if min > max {
        return None;
    }
    let letters = CharSet::Letters.values();
    let ghost issued = string_views(used@);
    let mut len: u32 = min;
    loop
        invariant
            min <= len <= max,
            issued == string_views(used@),
            letters@ == CharSet::Letters.members(),
            forall|s: Seq<char>|
                min <= s.len() < len && #[trigger] all_letters(s) ==> issued.contains(s),
        decreases max - len,
    {
        match first_unused_of_length(len, used, &letters) {
            Some(name) => {
                proof {
                    assert forall|s: Seq<char>| #[trigger]
                        is_token(s, min as int, max as int) && precedes(
                            s,
                            name@,
                        ) implies issued.contains(s) by {
                        if s.len() == len {
                            assert(is_token(s, len as int, len as int));
                        } else {
                            assert(all_letters(s));
                        }
                    }
                }
                return Some(name);
            },
            None => {},
        }
        proof {
            assert forall|s: Seq<char>|
                min <= s.len() < len + 1 && #[trigger] all_letters(s) implies issued.contains(
                s,
            ) by {
                if s.len() == len {
                    assert(is_token(s, len as int, len as int));
                }
            }
        }
        if len == max {
            proof {
                assert forall|s: Seq<char>| #[trigger]
                    is_token(s, min as int, max as int) implies issued.contains(s) by {
                    assert(all_letters(s));
                }
            }
            return None;
        }
        len += 1;
    }
}

} // verus!
