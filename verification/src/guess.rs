//! How many guesses an attacker with a list of known passwords needs for
//! a candidate password: looking it up, and trying the usual variations of
//! every entry of the list. Counts stay at the largest number that fits.

use crate::args::decimal_value;
use crate::entropy::{letter_count, Config};
use crate::text::{
    char_is_digit, char_is_letter, is_digit, is_lower, same_text, starts_with, texts_of,
};
use vstd::prelude::*;
use vstd::string::*;

verus! {

/// What a search through the list led to: the number of the guess that
/// hits the candidate, if one does, and how many guesses were counted.
#[derive(Clone, Copy, Debug, PartialEq, Eq, Structural)]
pub struct Search {
    pub matched: Option<u64>,
    pub checked: u64,
}

/// A count that stays at the largest number that fits.
pub open spec fn capped(n: nat) -> u64 {
    if n > u64::MAX {
        u64::MAX
    } else {
        n as u64
    }
}

/// The sum of two counts, capped.
pub open spec fn plus(a: u64, b: u64) -> u64 {
    capped((a + b) as nat)
}

/// A search that has hit nothing after `checked` guesses.
pub open spec fn missed(checked: u64) -> Search {
    Search { matched: None, checked }
}

/// A search that hit with its last guess.
pub open spec fn hit(checked: u64) -> Search {
    Search { matched: Some(checked), checked }
}

// ---- looking the candidate up ----
/// Looking up: the entries are tried in order, one guess each, until one
/// is the candidate.
pub open spec fn looked_up(list: Seq<Seq<char>>, password: Seq<char>, start: u64) -> Search
    decreases list.len(),
{
    if list.len() == 0 {
        missed(start)
    } else {
        let before = looked_up(list.drop_last(), password, start);
        if before.matched is Some {
            before
        } else if list.last() == password {
            hit(plus(before.checked, 1))
        } else {
            missed(plus(before.checked, 1))
        }
    }
}

/// A hit among the first entries is the result for the whole list.
pub proof fn lemma_lookup_stays(list: Seq<Seq<char>>, password: Seq<char>, start: u64, n: int)
    requires
        0 <= n <= list.len(),
    ensures
        looked_up(list.take(n), password, start).matched is Some ==> looked_up(
            list,
            password,
            start,
        ) == looked_up(list.take(n), password, start),
    decreases list.len() - n,
{
    if n < list.len() {
        lemma_lookup_stays(list, password, start, n + 1);
        assert(list.take(n + 1).drop_last() =~= list.take(n));
    } else {
        assert(list.take(n) =~= list);
    }
}

/// Looks the candidate up in the list, counting on from `start`.
pub fn do_basic_match(password: &str, passwords: &Vec<String>, start: u64) -> (search: Search)
    ensures
        search == looked_up(texts_of(passwords@), password@, start),
{
    let ghost list = texts_of(passwords@);
    let mut checked: u64 = start;
    let mut i: usize = 0;
    assert(list.take(0) =~= Seq::<Seq<char>>::empty());
    while i < passwords.len()
        invariant
            i <= passwords@.len(),
            list == texts_of(passwords@),
            looked_up(list.take(i as int), password@, start) == missed(checked),
        decreases passwords@.len() - i,
    {
        proof {
            assert(list.take(i + 1).drop_last() =~= list.take(i as int));
            lemma_lookup_stays(list, password@, start, i + 1);
        }
        checked = checked.saturating_add(1);
        if same_text(passwords[i].as_str(), password) {
            return Search { matched: Some(checked), checked };
        }
        i += 1;
    }
    assert(list.take(passwords@.len() as int) =~= list);
    Search { matched: None, checked }
}

// ---- upper and lower case ----
/// A letter in upper case; any other character as it is.
pub open spec fn upper(c: char) -> char {
    if is_lower(c) {
        ((c as u8) - 32) as char
    } else {
        c
    }
}

/// Whether two texts are the same when the case of letters is ignored.
pub open spec fn same_ignoring_case(a: Seq<char>, b: Seq<char>) -> bool {
    a.len() == b.len() && forall|i: int| 0 <= i < a.len() ==> upper(#[trigger] a[i]) == upper(b[i])
}

/// `base` to the power of `n`.
pub open spec fn power(base: nat, n: nat) -> nat
    decreases n,
{
    if n == 0 {
        1
    } else {
        base * power(base, (n - 1) as nat)
    }
}

/// What trying every mix of upper and lower case of an entry costs: with
/// `k` letters, `2^k`, capped, less the entry itself.
pub open spec fn case_cost(entry: Seq<char>) -> u64 {
    (capped(power(2, letter_count(entry))) - 1) as u64
}

/// Trying every mix of upper and lower case of every entry: an entry hits
/// where it is the candidate but for the case of letters.
pub open spec fn case_tried(list: Seq<Seq<char>>, password: Seq<char>, start: u64) -> Search
    decreases list.len(),
{
    if list.len() == 0 {
        missed(start)
    } else {
        let before = case_tried(list.drop_last(), password, start);
        let after = plus(before.checked, case_cost(list.last()));
        if before.matched is Some {
            before
        } else if same_ignoring_case(list.last(), password) {
            hit(after)
        } else {
            missed(after)
        }
    }
}

/// A hit among the first entries is the result for the whole list.
pub proof fn lemma_case_stays(list: Seq<Seq<char>>, password: Seq<char>, start: u64, n: int)
    requires
        0 <= n <= list.len(),
    ensures
        case_tried(list.take(n), password, start).matched is Some ==> case_tried(
            list,
            password,
            start,
        ) == case_tried(list.take(n), password, start),
    decreases list.len() - n,
{
    if n < list.len() {
        lemma_case_stays(list, password, start, n + 1);
        assert(list.take(n + 1).drop_last() =~= list.take(n));
    } else {
        assert(list.take(n) =~= list);
    }
}

/// A letter in upper case; any other character as it is.
fn to_upper(c: char) -> (u: char)
    ensures
        u == upper(c),
{
    if 'a' <= c && c <= 'z' {
        ((c as u8) - 32) as char
    } else {
        c
    }
}

/// Whether two texts are the same when the case of letters is ignored.
pub fn equal_ignoring_case(a: &str, b: &str) -> (same: bool)
    ensures
        same == same_ignoring_case(a@, b@),
{
    let n: usize = a.unicode_len();
    if n != b.unicode_len() {
        return false;
    }
    let mut i: usize = 0;
    while i < n
        invariant
            i <= n,
            n == a@.len(),
            n == b@.len(),
            forall|k: int| 0 <= k < i ==> upper(#[trigger] a@[k]) == upper(b@[k]),
        decreases n - i,
    {
        if to_upper(a.get_char(i)) != to_upper(b.get_char(i)) {
            return false;
        }
        i += 1;
    }
    true
}

/// A count times a small factor, capped.
fn times(count: u64, factor: u64, Ghost(exact): Ghost<nat>) -> (product: u64)
    requires
        count == capped(exact),
        1 <= factor <= 10,
    ensures
        product == capped((factor * exact) as nat),
{
    if factor == 1 {
        return count;
    }
    let most: u64 = u64::MAX / factor;
    if count > most {
        assert(factor * exact > u64::MAX) by (nonlinear_arith)
            requires
                exact > most,
                most == u64::MAX / factor,
                2 <= factor <= 10,
        ;
        u64::MAX
    } else {
        assert(most < u64::MAX) by (nonlinear_arith)
            requires
                most == u64::MAX / factor,
                2 <= factor <= 10,
        ;
        assert(count == exact);
        assert(factor * exact <= u64::MAX) by (nonlinear_arith)
            requires
                exact <= most,
                most == u64::MAX / factor,
                2 <= factor <= 10,
        ;
        assert(count * factor == factor * exact) by (nonlinear_arith)
            requires
                count == exact,
        ;
        count * factor
    }
}

/// What trying every mix of upper and lower case of an entry costs.
fn case_variants(entry: &str) -> (count: u64)
    ensures
        count == case_cost(entry@),
{
    let n: usize = entry.unicode_len();
    let mut product: u64 = 1;
    let ghost mut exact: nat = 1;
    let mut i: usize = 0;
    assert(entry@.take(0) =~= Seq::<char>::empty());
    while i < n
        invariant
            i <= n,
            n == entry@.len(),
            exact == power(2, letter_count(entry@.take(i as int))),
            product == capped(exact),
            exact >= 1,
        decreases n - i,
    {
        assert(entry@.take(i + 1).drop_last() =~= entry@.take(i as int));
        if char_is_letter(entry.get_char(i)) {
            product = times(product, 2, Ghost(exact));
            proof {
                exact = 2 * exact;
            }
        }
        i += 1;
    }
    assert(entry@.take(n as int) =~= entry@);
    product - 1
}

/// Tries every mix of upper and lower case of every entry, counting on
/// from `start`.
pub fn check_case_match(password: &str, passwords: &Vec<String>, start: u64) -> (search: Search)
    ensures
        search == case_tried(texts_of(passwords@), password@, start),
{
    let ghost list = texts_of(passwords@);
    let mut checked: u64 = start;
    let mut i: usize = 0;
    assert(list.take(0) =~= Seq::<Seq<char>>::empty());
    while i < passwords.len()
        invariant
            i <= passwords@.len(),
            list == texts_of(passwords@),
            case_tried(list.take(i as int), password@, start) == missed(checked),
        decreases passwords@.len() - i,
    {
        proof {
            assert(list.take(i + 1).drop_last() =~= list.take(i as int));
            lemma_case_stays(list, password@, start, i + 1);
        }
        let entry = passwords[i].as_str();
        checked = checked.saturating_add(case_variants(entry));
        if equal_ignoring_case(entry, password) {
            return Search { matched: Some(checked), checked };
        }
        i += 1;
    }
    assert(list.take(passwords@.len() as int) =~= list);
    Search { matched: None, checked }
}

// ---- two entries in a row ----
/// Trying, for one first entry, every second entry, one guess each, up to
/// the pair that makes up the candidate.
pub open spec fn second_tried(
    list: Seq<Seq<char>>,
    first: Seq<char>,
    password: Seq<char>,
    start: u64,
    n: nat,
) -> Search
    decreases n,
{
    if n == 0 {
        missed(start)
    } else {
        let before = second_tried(list, first, password, start, (n - 1) as nat);
        if before.matched is Some {
            before
        } else if first + list[n - 1] == password {
            hit(plus(before.checked, 1))
        } else {
            missed(plus(before.checked, 1))
        }
    }
}

/// Trying every pair of entries, first entry by first entry.
pub open spec fn pairs_tried(
    list: Seq<Seq<char>>,
    password: Seq<char>,
    start: u64,
    n: nat,
) -> Search
    decreases n,
{
    if n == 0 {
        missed(start)
    } else {
        let before = pairs_tried(list, password, start, (n - 1) as nat);
        if before.matched is Some {
            before
        } else {
            second_tried(list, list[n - 1], password, before.checked, list.len())
        }
    }
}

/// A hit among the first second entries is the result for all of them.
pub proof fn lemma_second_stays(
    list: Seq<Seq<char>>,
    first: Seq<char>,
    password: Seq<char>,
    start: u64,
    n: nat,
    all: nat,
)
    requires
        n <= all,
    ensures
        second_tried(list, first, password, start, n).matched is Some ==> second_tried(
            list,
            first,
            password,
            start,
            all,
        ) == second_tried(list, first, password, start, n),
    decreases all - n,
{
    if n < all {
        lemma_second_stays(list, first, password, start, n + 1, all);
    }
}

/// A hit among the first first entries is the result for all of them.
pub proof fn lemma_pairs_stay(
    list: Seq<Seq<char>>,
    password: Seq<char>,
    start: u64,
    n: nat,
    all: nat,
)
    requires
        n <= all,
    ensures
        pairs_tried(list, password, start, n).matched is Some ==> pairs_tried(
            list,
            password,
            start,
            all,
        ) == pairs_tried(list, password, start, n),
    decreases all - n,
{
    if n < all {
        lemma_pairs_stay(list, password, start, n + 1, all);
    }
}

/// An entry that the candidate does not begin with makes no pair that is
/// the candidate: all its pairs are counted and none hits.
pub proof fn lemma_no_pair(
    list: Seq<Seq<char>>,
    first: Seq<char>,
    password: Seq<char>,
    start: u64,
    n: nat,
)
    requires
        !first.is_prefix_of(password),
    ensures
        second_tried(list, first, password, start, n) == missed(capped((start + n) as nat)),
    decreases n,
{
    if n > 0 {
        lemma_no_pair(list, first, password, start, (n - 1) as nat);
        if first + list[n - 1] == password {
            assert(first =~= password.subrange(0, first.len() as int));
        }
    }
}

/// Tries every pair of entries, counting on from `start`.
pub fn check_double_match(password: &str, passwords: &Vec<String>, start: u64) -> (search: Search)
    ensures
        search == pairs_tried(texts_of(passwords@), password@, start, passwords@.len()),
{
    let ghost list = texts_of(passwords@);
    let total: usize = password.unicode_len();
    let count: usize = passwords.len();
    let mut checked: u64 = start;
    let mut i: usize = 0;
    while i < count
        invariant
            i <= count,
            count == passwords@.len(),
            count == list.len(),
            total == password@.len(),
            list == texts_of(passwords@),
            pairs_tried(list, password@, start, i as nat) == missed(checked),
        decreases count - i,
    {
        let first = passwords[i].as_str();
        let len1: usize = first.unicode_len();
        proof {
            lemma_pairs_stay(list, password@, start, (i + 1) as nat, count as nat);
            assert(list[i as int] == first@);
        }
        if !starts_with(password, first) {
            proof {
                lemma_no_pair(list, first@, password@, checked, count as nat);
            }
            checked = checked.saturating_add(count as u64);
            i += 1;
            continue;
        }
        let rest = password.substring_char(len1, total);
        let ghost before: u64 = checked;
        let mut j: usize = 0;
        while j < count
            invariant
                j <= count,
                i < count,
                count == passwords@.len(),
                count == list.len(),
                list == texts_of(passwords@),
                list[i as int] == first@,
                first@.is_prefix_of(password@),
                len1 == first@.len(),
                rest@ == password@.subrange(len1 as int, total as int),
                total == password@.len(),
                pairs_tried(list, password@, start, i as nat) == missed(before),
                pairs_tried(list, password@, start, (i + 1) as nat).matched is Some
                    ==> pairs_tried(list, password@, start, count as nat) == pairs_tried(
                    list,
                    password@,
                    start,
                    (i + 1) as nat,
                ),
                second_tried(list, first@, password@, before, j as nat) == missed(checked),
            decreases count - j,
        {
            proof {
                lemma_second_stays(list, first@, password@, before, (j + 1) as nat, count as nat);
                assert(list[j as int] == passwords@[j as int]@);
            }
            let ghost earlier = checked;
            checked = checked.saturating_add(1);
            let second = passwords[j].as_str();
            let found = same_text(second, rest);
            proof {
                let joined = first@ + second@;
                if found {
                    assert(first@ =~= password@.subrange(0, len1 as int));
                    assert(joined =~= password@);
                    assert(second_tried(list, first@, password@, before, (j + 1) as nat) == hit(
                        checked,
                    ));
                    assert(pairs_tried(list, password@, start, (i + 1) as nat) == second_tried(
                        list,
                        first@,
                        password@,
                        before,
                        count as nat,
                    ));
                } else if joined == password@ {
                    assert(joined.subrange(len1 as int, total as int) =~= second@);
                }
            }
            if found {
                return Search { matched: Some(checked), checked };
            }
            j += 1;
        }
        i += 1;
    }
    Search { matched: None, checked }
}

// ---- digits at the end ----
/// The number of texts of 1 to `n` digits: `10 + 100 + ... + 10^n`.
pub open spec fn digit_runs(n: nat) -> nat
    decreases n,
{
    if n == 0 {
        0
    } else {
        digit_runs((n - 1) as nat) + power(10, n)
    }
}

/// Whether a text is made of digits only.
pub open spec fn only_digits(text: Seq<char>) -> bool {
    forall|i: int| 0 <= i < text.len() ==> is_digit(#[trigger] text[i])
}

/// Whether an entry gets digits appended: it is not empty and does not
/// end in a digit.
pub open spec fn takes_digits(entry: Seq<char>) -> bool {
    entry.len() > 0 && !is_digit(entry.last())
}

/// The number of the guess, among those that append up to `most` digits
/// to an entry, that is the candidate: all shorter runs of digits come
/// first, then the runs of the same length in rising order.
pub open spec fn digits_hit(entry: Seq<char>, password: Seq<char>, most: nat) -> Option<u64> {
    let run = password.skip(entry.len() as int);
    if entry.is_prefix_of(password) && 1 <= run.len() <= most && only_digits(run) {
        Some(capped(digit_runs((run.len() - 1) as nat) + decimal_value(run) + 1))
    } else {
        None
    }
}

/// Appending up to `most` digits to every entry that takes digits. An
/// empty entry ends the search.
pub open spec fn digits_tried(
    list: Seq<Seq<char>>,
    password: Seq<char>,
    most: nat,
    start: u64,
) -> (Search, bool)
    decreases list.len(),
{
    if list.len() == 0 {
        (missed(start), false)
    } else {
        let before = digits_tried(list.drop_last(), password, most, start);
        if before.0.matched is Some || before.1 {
            before
        } else if list.last().len() == 0 {
            (before.0, true)
        } else if !takes_digits(list.last()) {
            before
        } else {
            match digits_hit(list.last(), password, most) {
                Some(guess) => (hit(plus(before.0.checked, guess)), false),
                None => (missed(plus(before.0.checked, capped(digit_runs(most)))), false),
            }
        }
    }
}

/// Once the search has ended among the first entries, that is the result
/// for the whole list.
pub proof fn lemma_digits_stay(
    list: Seq<Seq<char>>,
    password: Seq<char>,
    most: nat,
    start: u64,
    n: int,
)
    requires
        0 <= n <= list.len(),
    ensures
        ({
            let early = digits_tried(list.take(n), password, most, start);
            early.0.matched is Some || early.1 ==> digits_tried(list, password, most, start)
                == early
        }),
    decreases list.len() - n,
{
    if n < list.len() {
        lemma_digits_stay(list, password, most, start, n + 1);
        assert(list.take(n + 1).drop_last() =~= list.take(n));
    } else {
        assert(list.take(n) =~= list);
    }
}

/// The number of texts of 1 to `n` digits, capped.
fn count_digit_runs(n: usize) -> (count: u64)
    ensures
        count == capped(digit_runs(n as nat)),
{
    let mut count: u64 = 0;
    let mut term: u64 = 1;
    let ghost mut exact: nat = 1;
    let mut t: usize = 0;
    while t < n
        invariant
            t <= n,
            exact == power(10, t as nat),
            term == capped(exact),
            count == capped(digit_runs(t as nat)),
        decreases n - t,
    {
        term = times(term, 10, Ghost(exact));
        proof {
            exact = 10 * exact;
        }
        t += 1;
        count = count.saturating_add(term);
    }
    count
}

/// The value of a run of digits, capped.
fn run_value(run: &str) -> (value: u64)
    requires
        only_digits(run@),
    ensures
        value == capped(decimal_value(run@)),
{
    let n: usize = run.unicode_len();
    let mut value: u64 = 0;
    let mut i: usize = 0;
    assert(run@.take(0) =~= Seq::<char>::empty());
    while i < n
        invariant
            i <= n,
            n == run@.len(),
            only_digits(run@),
            value == capped(decimal_value(run@.take(i as int))),
        decreases n - i,
    {
        let c: char = run.get_char(i);
        assert(is_digit(run@[i as int]));
        let digit: u64 = ((c as u32) - ('0' as u32)) as u64;
        proof {
            assert(run@.take(i + 1).drop_last() =~= run@.take(i as int));
        }
        value = times(value, 10, Ghost(decimal_value(run@.take(i as int)))).saturating_add(digit);
        i += 1;
    }
    assert(run@.take(n as int) =~= run@);
    value
}

/// Whether a text is made of digits only.
fn all_digits(text: &str) -> (yes: bool)
    ensures
        yes == only_digits(text@),
{
    let n: usize = text.unicode_len();
    let mut i: usize = 0;
    while i < n
        invariant
            i <= n,
            n == text@.len(),
            forall|k: int| 0 <= k < i ==> is_digit(#[trigger] text@[k]),
        decreases n - i,
    {
        if !char_is_digit(text.get_char(i)) {
            return false;
        }
        i += 1;
    }
    true
}

/// The number of the guess that appends the right digits to an entry.
fn find_digits(entry: &str, password: &str, most: usize) -> (guess: Option<u64>)
    ensures
        guess == digits_hit(entry@, password@, most as nat),
{
    if !starts_with(password, entry) {
        return None;
    }
    let from: usize = entry.unicode_len();
    let total: usize = password.unicode_len();
    let run = password.substring_char(from, total);
    assert(run@ =~= password@.skip(from as int));
    let length: usize = total - from;
    if length < 1 || length > most || !all_digits(run) {
        return None;
    }
    let shorter: u64 = count_digit_runs(length - 1);
    Some(shorter.saturating_add(run_value(run)).saturating_add(1))
}

/// Appends up to `num_digits` digits to every entry that does not end in
/// a digit, counting on from `start`. An empty entry ends the search.
pub fn check_digit_append_match(
    password: &str,
    passwords: &Vec<String>,
    num_digits: usize,
    start: u64,
) -> (search: Search)
    ensures
        search == digits_tried(texts_of(passwords@), password@, num_digits as nat, start).0,
{
    let ghost list = texts_of(passwords@);
    let all_runs: u64 = count_digit_runs(num_digits);
    let mut checked: u64 = start;
    let mut i: usize = 0;
    assert(list.take(0) =~= Seq::<Seq<char>>::empty());
    while i < passwords.len()
        invariant
            i <= passwords@.len(),
            list == texts_of(passwords@),
            all_runs == capped(digit_runs(num_digits as nat)),
            digits_tried(list.take(i as int), password@, num_digits as nat, start) == (
                missed(checked),
                false,
            ),
        decreases passwords@.len() - i,
    {
        proof {
            assert(list.take(i + 1).drop_last() =~= list.take(i as int));
            lemma_digits_stay(list, password@, num_digits as nat, start, i + 1);
        }
        let entry = passwords[i].as_str();
        let length: usize = entry.unicode_len();
        if length == 0 {
            return Search { matched: None, checked };
        }
        if !char_is_digit(entry.get_char(length - 1)) {
            match find_digits(entry, password, num_digits) {
                Some(guess) => {
                    checked = checked.saturating_add(guess);
                    return Search { matched: Some(checked), checked };
                },
                None => {
                    checked = checked.saturating_add(all_runs);
                },
            }
        }
        i += 1;
    }
    assert(list.take(passwords@.len() as int) =~= list);
    Search { matched: None, checked }
}

// ---- letters replaced by look-alikes ----
/// The look-alikes of a letter.
pub open spec fn look_alikes(c: char) -> Seq<char> {
    if c == 'a' || c == 'A' {
        seq!['4', '@']
    } else if c == 'b' || c == 'B' {
        seq!['6', '8']
    } else if c == 'e' || c == 'E' {
        seq!['3']
    } else if c == 'g' || c == 'G' {
        seq!['6', '9']
    } else if c == 'i' || c == 'I' {
        seq!['1', '!']
    } else if c == 'l' || c == 'L' {
        seq!['1']
    } else if c == 'o' || c == 'O' {
        seq!['0']
    } else if c == 's' || c == 'S' {
        seq!['5', '$']
    } else if c == 't' || c == 'T' {
        seq!['7', '+']
    } else if c == 'x' || c == 'X' {
        seq!['%']
    } else if c == 'z' || c == 'Z' {
        seq!['2']
    } else {
        Seq::empty()
    }
}

/// Whether `typed` can stand where the entry has `c`: it is `c` itself or
/// one of its look-alikes.
pub open spec fn stands_for(c: char, typed: char) -> bool {
    typed == c || look_alikes(c).contains(typed)
}

/// Whether the candidate is the entry with some of its letters replaced
/// by look-alikes, from position `from` on.
pub open spec fn alike_from(entry: Seq<char>, password: Seq<char>, from: int) -> bool {
    entry.len() == password.len() && forall|i: int|
        from <= i < entry.len() ==> stands_for(#[trigger] entry[i], password[i])
}

/// How many variants an entry has when each of its letters may be
/// replaced by a look-alike: the product, over its characters, of one more
/// than the number of look-alikes.
pub open spec fn variants(entry: Seq<char>) -> nat
    decreases entry.len(),
{
    if entry.len() == 0 {
        1
    } else {
        variants(entry.drop_last()) * (1 + look_alikes(entry.last()).len())
    }
}

/// Whether an entry has a letter with a look-alike.
pub open spec fn has_look_alike(entry: Seq<char>) -> bool {
    exists|i: int| 0 <= i < entry.len() && look_alikes(#[trigger] entry[i]).len() > 0
}

/// What trying the variants of an entry costs: their number, capped, less
/// the entry itself.
pub open spec fn alike_cost(entry: Seq<char>) -> u64 {
    (capped(variants(entry)) - 1) as u64
}

/// Replacing letters by look-alikes in every entry that has such letters.
pub open spec fn alikes_tried(list: Seq<Seq<char>>, password: Seq<char>, start: u64) -> Search
    decreases list.len(),
{
    if list.len() == 0 {
        missed(start)
    } else {
        let before = alikes_tried(list.drop_last(), password, start);
        let after = plus(before.checked, alike_cost(list.last()));
        if before.matched is Some {
            before
        } else if !has_look_alike(list.last()) {
            before
        } else if alike_from(list.last(), password, 0) {
            hit(after)
        } else {
            missed(after)
        }
    }
}

/// A hit among the first entries is the result for the whole list.
pub proof fn lemma_alikes_stay(list: Seq<Seq<char>>, password: Seq<char>, start: u64, n: int)
    requires
        0 <= n <= list.len(),
    ensures
        alikes_tried(list.take(n), password, start).matched is Some ==> alikes_tried(
            list,
            password,
            start,
        ) == alikes_tried(list.take(n), password, start),
    decreases list.len() - n,
{
    if n < list.len() {
        lemma_alikes_stay(list, password, start, n + 1);
        assert(list.take(n + 1).drop_last() =~= list.take(n));
    } else {
        assert(list.take(n) =~= list);
    }
}

/// Every text has at least one variant: itself.
pub proof fn lemma_variants_positive(entry: Seq<char>)
    ensures
        variants(entry) >= 1,
    decreases entry.len(),
{
    if entry.len() > 0 {
        lemma_variants_positive(entry.drop_last());
        assert(variants(entry.drop_last()) * (1 + look_alikes(entry.last()).len()) >= 1)
            by (nonlinear_arith)
            requires
                variants(entry.drop_last()) >= 1,
        ;
    }
}

/// How many look-alikes a character has.
pub fn look_alike_count(c: char) -> (n: u64)
    ensures
        n == look_alikes(c).len(),
        n <= 2,
{
    if c == 'a' || c == 'A' || c == 'b' || c == 'B' || c == 'g' || c == 'G' || c == 'i' || c == 'I'
        || c == 's' || c == 'S' || c == 't' || c == 'T' {
        2
    } else if c == 'e' || c == 'E' || c == 'l' || c == 'L' || c == 'o' || c == 'O' || c == 'x' || c
        == 'X' || c == 'z' || c == 'Z' {
        1
    } else {
        0
    }
}

/// Whether `typed` can stand where the entry has `c`.
pub fn can_stand_for(c: char, typed: char) -> (yes: bool)
    ensures
        yes == stands_for(c, typed),
{
    if typed == c {
        return true;
    }
    let found = if c == 'a' || c == 'A' {
        typed == '4' || typed == '@'
    } else if c == 'b' || c == 'B' {
        typed == '6' || typed == '8'
    } else if c == 'e' || c == 'E' {
        typed == '3'
    } else if c == 'g' || c == 'G' {
        typed == '6' || typed == '9'
    } else if c == 'i' || c == 'I' {
        typed == '1' || typed == '!'
    } else if c == 'l' || c == 'L' {
        typed == '1'
    } else if c == 'o' || c == 'O' {
        typed == '0'
    } else if c == 's' || c == 'S' {
        typed == '5' || typed == '$'
    } else if c == 't' || c == 'T' {
        typed == '7' || typed == '+'
    } else if c == 'x' || c == 'X' {
        typed == '%'
    } else if c == 'z' || c == 'Z' {
        typed == '2'
    } else {
        false
    };
    proof {
        let options = look_alikes(c);
        if found {
            if options.len() == 1 {
                assert(options[0] == typed);
            } else {
                assert(options[0] == typed || options[1] == typed);
            }
        } else if options.contains(typed) {
            let k = choose|k: int| 0 <= k < options.len() && options[k] == typed;
            assert(options[k] == typed);
        }
    }
    found
}

/// Whether the candidate is the entry, from position `index` on, with
/// some letters replaced by look-alikes. The two have the same length.
pub fn dfs(password: &str, entry: &str, index: usize) -> (found: bool)
    requires
        password@.len() == entry@.len(),
        index <= entry@.len(),
    ensures
        found == alike_from(entry@, password@, index as int),
    decreases entry@.len() - index,
{
    if index == entry.unicode_len() {
        return true;
    }
    if !can_stand_for(entry.get_char(index), password.get_char(index)) {
        assert(!stands_for(entry@[index as int], password@[index as int]));
        return false;
    }
    let rest = dfs(password, entry, index + 1);
    proof {
        if rest {
            assert forall|i: int| index <= i < entry@.len() implies stands_for(
                #[trigger] entry@[i],
                password@[i],
            ) by {
                if i > index {
                    assert(alike_from(entry@, password@, index + 1));
                }
            }
        }
    }
    rest
}

/// The number of variants of an entry, capped, and whether it has a
/// letter with a look-alike.
fn count_variants(entry: &str) -> (result: (u64, bool))
    ensures
        result.0 == capped(variants(entry@)),
        result.1 == has_look_alike(entry@),
{
    let n: usize = entry.unicode_len();
    let mut product: u64 = 1;
    let mut any: bool = false;
    let mut i: usize = 0;
    assert(entry@.take(0) =~= Seq::<char>::empty());
    while i < n
        invariant
            i <= n,
            n == entry@.len(),
            product == capped(variants(entry@.take(i as int))),
            any == exists|k: int| 0 <= k < i && look_alikes(#[trigger] entry@[k]).len() > 0,
        decreases n - i,
    {
        let options: u64 = look_alike_count(entry.get_char(i));
        proof {
            assert(entry@.take(i + 1).drop_last() =~= entry@.take(i as int));
            let so_far = variants(entry@.take(i as int));
            assert((1 + options) * so_far == so_far * (1 + options)) by (nonlinear_arith);
        }
        product = times(product, 1 + options, Ghost(variants(entry@.take(i as int))));
        if options > 0 {
            any = true;
        }
        i += 1;
    }
    assert(entry@.take(n as int) =~= entry@);
    (product, any)
}

/// Replaces letters by look-alikes in every entry that has such letters,
/// counting on from `start`.
pub fn check_leet_match(password: &str, passwords: &Vec<String>, start: u64) -> (search: Search)
    ensures
        search == alikes_tried(texts_of(passwords@), password@, start),
{
    let ghost list = texts_of(passwords@);
    let total: usize = password.unicode_len();
    let mut checked: u64 = start;
    let mut i: usize = 0;
    assert(list.take(0) =~= Seq::<Seq<char>>::empty());
    while i < passwords.len()
        invariant
            i <= passwords@.len(),
            total == password@.len(),
            list == texts_of(passwords@),
            alikes_tried(list.take(i as int), password@, start) == missed(checked),
        decreases passwords@.len() - i,
    {
        proof {
            assert(list.take(i + 1).drop_last() =~= list.take(i as int));
            lemma_alikes_stay(list, password@, start, i + 1);
            lemma_variants_positive(list[i as int]);
        }
        let entry = passwords[i].as_str();
        let (count, any) = count_variants(entry);
        if any {
            checked = checked.saturating_add(count - 1);
            if entry.unicode_len() == total && dfs(password, entry, 0) {
                return Search { matched: Some(checked), checked };
            }
        }
        i += 1;
    }
    assert(list.take(passwords@.len() as int) =~= list);
    Search { matched: None, checked }
}

// ---- all the ways in turn ----
/// The search that goes on where an earlier one has hit nothing.
pub open spec fn or_else(earlier: Search, later: Search) -> Search {
    if earlier.matched is Some {
        earlier
    } else {
        later
    }
}

/// All the ways of guessing in turn, each counting on from the one before:
/// looking up, then, as far as they are asked for, mixing case, appending
/// digits, joining two entries, and replacing letters by look-alikes.
pub open spec fn guessed(list: Seq<Seq<char>>, password: Seq<char>, config: Config) -> Search {
    let basic = looked_up(list, password, 0);
    let cased = if config.case_sensitive {
        or_else(basic, case_tried(list, password, basic.checked))
    } else {
        basic
    };
    let digits = if config.digit_append {
        or_else(
            cased,
            digits_tried(list, password, config.num_digits as nat, cased.checked).0,
        )
    } else {
        cased
    };
    let doubled = if config.double_check {
        or_else(digits, pairs_tried(list, password, digits.checked, list.len()))
    } else {
        digits
    };
    if config.leet {
        or_else(doubled, alikes_tried(list, password, doubled.checked))
    } else {
        doubled
    }
}

/// Tries all the ways of guessing that are asked for, in turn, and returns
/// the first hit, or how many guesses were made in vain.
pub fn count_guesses(password: &str, passwords: &Vec<String>, config: &Config) -> (search: Search)
    ensures
        search == guessed(texts_of(passwords@), password@, *config),
{
    let mut search = do_basic_match(password, passwords, 0);
    if search.matched.is_some() {
        return search;
    }
    if config.case_sensitive {
        search = check_case_match(password, passwords, search.checked);
        if search.matched.is_some() {
            return search;
        }
    }
    if config.digit_append {
        search = check_digit_append_match(password, passwords, config.num_digits, search.checked);
        if search.matched.is_some() {
            return search;
        }
    }
    if config.double_check {
        search = check_double_match(password, passwords, search.checked);
        if search.matched.is_some() {
            return search;
        }
    }
    if config.leet {
        search = check_leet_match(password, passwords, search.checked);
    }
    search
}

} // verus!
