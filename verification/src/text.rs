use vstd::prelude::*;

verus! {

/// The character-wise lowercase folding computed by `fold_lower`.
pub uninterp spec fn lower_of(s: Seq<char>) -> Seq<char>;

/// The whitespace trimming computed by `trimmed`.
pub uninterp spec fn trim_of(s: Seq<char>) -> Seq<char>;

/// Relies on char::to_lowercase: each character is replaced by the first
/// character of its lowercase mapping, which depends on the character alone.
#[verifier::external_body]
pub(crate) fn fold_lower(s: &str) -> (r: String)
    ensures
        r@ == lower_of(s@),
{
    s.chars().map(|c| c.to_lowercase().next().unwrap()).collect::<String>()
}

/// Relies on str::trim: the input without its leading and trailing
/// whitespace, which depends on the characters alone.
#[verifier::external_body]
pub(crate) fn trimmed(s: &str) -> (r: String)
    ensures
        r@ == trim_of(s@),
{
    s.trim().to_string()
}

/// Character-for-character equality of two string slices.
pub(crate) fn str_eq(a: &str, b: &str) -> (r: bool)
    ensures
        r == (a@ == b@),
{
    let alen: usize = a.unicode_len();
    let blen: usize = b.unicode_len();
    if alen != blen {
        return false;
    }
    let mut i: usize = 0;
    while i < alen
        invariant
            alen == a@.len(),
            blen == b@.len(),
            alen == blen,
            i <= alen,
            forall|j: int| 0 <= j < i ==> a@[j] == b@[j],
        decreases alen - i,
    {
        if a.get_char(i) != b.get_char(i) {
            return false;
        }
        i = i + 1;
    }
    proof {
        assert(a@ =~= b@);
    }
    true
}

/// Whether `c` is an ASCII decimal digit.
pub open spec fn is_digit(c: char) -> bool {
    48 <= c as int <= 57
}

/// The numeric value of an ASCII decimal digit.
pub open spec fn digit_val(c: char) -> int {
    c as int - 48
}

/// Whether every character of `s` is an ASCII decimal digit.
pub open spec fn all_digits(s: Seq<char>) -> bool {
    forall|i: int| 0 <= i < s.len() ==> is_digit(#[trigger] s[i])
}

/// The value of `s` read as a base-ten numeral.
pub open spec fn digits_val(s: Seq<char>) -> int
    decreases s.len(),
{
    if s.len() == 0 {
        0
    } else {
        digits_val(s.drop_last()) * 10 + digit_val(s.last())
    }
}

/// Whether `v` can be returned from a signed 64-bit parse that rejects
/// the one value whose magnitude exceeds `i64::MAX`.
pub open spec fn in_i64_range(v: int) -> bool {
    -(i64::MAX as int) <= v <= i64::MAX as int
}

/// Whether `s` is an optional minus sign followed by at least one digit.
pub open spec fn is_int_token(s: Seq<char>) -> bool {
    if s.len() > 0 && s[0] == '-' {
        s.len() >= 2 && all_digits(s.skip(1))
    } else {
        s.len() >= 1 && all_digits(s)
    }
}

/// The signed value of an integer token.
pub open spec fn int_token_val(s: Seq<char>) -> int {
    if s.len() > 0 && s[0] == '-' {
        -digits_val(s.skip(1))
    } else {
        digits_val(s)
    }
}

proof fn lemma_digits_val_nonneg(s: Seq<char>)
    requires
        all_digits(s),
    ensures
        digits_val(s) >= 0,
    decreases s.len(),
{
    if s.len() > 0 {
        assert forall|i: int| 0 <= i < s.drop_last().len() implies is_digit(#[trigger] s.drop_last()[i]) by {
            assert(s.drop_last()[i] == s[i]);
        }
        lemma_digits_val_nonneg(s.drop_last());
        assert(is_digit(s.last()));
    }
}

proof fn lemma_all_digits_take(s: Seq<char>, i: int)
    requires
        all_digits(s),
        0 <= i <= s.len(),
    ensures
        all_digits(s.take(i)),
{
    assert forall|j: int| 0 <= j < s.take(i).len() implies is_digit(#[trigger] s.take(i)[j]) by {
        assert(s.take(i)[j] == s[j]);
    }
}

proof fn lemma_digits_val_take_le(s: Seq<char>, i: int)
    requires
        all_digits(s),
        0 <= i <= s.len(),
    ensures
        digits_val(s.take(i)) <= digits_val(s),
    decreases s.len() - i,
{
    if i == s.len() {
        assert(s.take(i) =~= s);
    } else {
        assert(s.take(i + 1).drop_last() =~= s.take(i));
        assert(s.take(i + 1).last() == s[i]);
        lemma_all_digits_take(s, i);
        lemma_digits_val_nonneg(s.take(i));
        assert(is_digit(s[i]));
        assert(digits_val(s.take(i + 1)) == digits_val(s.take(i)) * 10 + digit_val(s[i]));
        lemma_digits_val_take_le(s, i + 1);
    }
}

/// Parses an optional minus sign followed by decimal digits as a signed
/// 64-bit integer, rejecting anything else and any overflowing value.
pub fn parse_i64(s: &str) -> (r: Option<i64>)
    ensures
        r is Some <==> is_int_token(s@) && in_i64_range(int_token_val(s@)),
        r matches Some(v) ==> v as int == int_token_val(s@),
{
    let n: usize = s.unicode_len();
    if n == 0 {
        return None;
    }
    let neg: bool = s.get_char(0) == '-';
    let start: usize = if neg { 1 } else { 0 };
    if start == n {
        return None;
    }
    let ghost digits: Seq<char> = if neg { s@.skip(1) } else { s@ };
    let mut acc: i64 = 0;
    let mut i: usize = start;
    while i < n
        invariant
            n == s@.len(),
            start <= i <= n,
            start == if neg { 1int } else { 0int },
            start < n,
            neg == (s@[0] == '-'),
            digits == (if neg { s@.skip(1) } else { s@ }),
            digits.len() == n - start,
            all_digits(digits.take(i - start)),
            0 <= acc,
            acc as int == digits_val(digits.take(i - start)),
        decreases n - i,
    {
        let c = s.get_char(i);
        let u = c as u32;
        proof {
            assert(digits[i - start] == s@[i as int]);
        }
        if u < 48 || u > 57 {
            proof {
                assert(!is_digit(digits[i - start]));
                assert(!all_digits(digits));
            }
            return None;
        }
        let d: i64 = (u - 48) as i64;
        proof {
            assert(is_digit(digits[i - start]));
            assert(d as int == digit_val(digits[i - start]));
            assert(digits.take(i - start + 1).drop_last() =~= digits.take(i - start));
            assert(digits.take(i - start + 1).last() == digits[i - start]);
            assert(digits_val(digits.take(i - start + 1)) == acc as int * 10 + d as int);
            assert forall|j: int| 0 <= j < digits.take(i - start + 1).len()
                implies is_digit(#[trigger] digits.take(i - start + 1)[j]) by {
                assert(digits.take(i - start + 1)[j] == digits[j]);
                if j < i - start {
                    assert(digits.take(i - start)[j] == digits[j]);
                }
            }
        }
        let acc10 = match acc.checked_mul(10) {
            Some(x) => x,
            None => {
                proof {
                    if is_int_token(s@) {
                        assert(all_digits(digits));
                        lemma_digits_val_take_le(digits, i - start + 1);
                        assert(digits_val(digits) > i64::MAX as int);
                    }
                }
                return None;
            },
        };
        let acc2 = match acc10.checked_add(d) {
            Some(x) => x,
            None => {
                proof {
                    if is_int_token(s@) {
                        assert(all_digits(digits));
                        lemma_digits_val_take_le(digits, i - start + 1);
                        assert(digits_val(digits) > i64::MAX as int);
                    }
                }
                return None;
            },
        };
        acc = acc2;
        i = i + 1;
    }
    proof {
        assert(digits.take(n - start) =~= digits);
        assert(is_int_token(s@));
    }
    if neg {
        Some(-acc)
    } else {
        Some(acc)
    }
}

/// The index of the first space of `s` at or after position `i`, or the
/// length of `s` if there is none.
pub open spec fn space_from(s: Seq<char>, i: int) -> int
    decreases s.len() - i,
{
    if i >= s.len() {
        s.len() as int
    } else if s[i] == ' ' {
        i
    } else {
        space_from(s, i + 1)
    }
}

pub(crate) fn find_space(s: &str, from: usize) -> (r: usize)
    requires
        from as int <= s@.len(),
    ensures
        r as int == space_from(s@, from as int),
        from <= r,
        r as int <= s@.len(),
{
    let n: usize = s.unicode_len();
    let mut i: usize = from;
    while i < n
        invariant
            n == s@.len(),
            from <= i <= n,
            space_from(s@, from as int) == space_from(s@, i as int),
        decreases n - i,
    {
        if s.get_char(i) == ' ' {
            return i;
        }
        i = i + 1;
    }
    i
}

/// The characters between the first space of `s` and the space that
/// follows it (or the end of `s`), if `s` has a space at all.
pub open spec fn second_token_of(s: Seq<char>) -> Option<Seq<char>> {
    let a = space_from(s, 0);
    if a == s.len() {
        None
    } else {
        Some(s.subrange(a + 1, space_from(s, a + 1)))
    }
}

pub(crate) fn second_token(s: &str) -> (r: Option<String>)
    ensures
        r is Some <==> second_token_of(s@) is Some,
        r matches Some(t) ==> second_token_of(s@) == Some(t@),
{
    let n: usize = s.unicode_len();
    let a: usize = find_space(s, 0);
    if a == n {
        None
    } else {
        let b: usize = find_space(s, a + 1);
        let tok: &str = s.substring_char(a + 1, b);
        Some(String::from_str(tok))
    }
}

/// Whether a season label carries a parseable integer after its first
/// space.
pub open spec fn label_has_num(s: Seq<char>) -> bool {
    second_token_of(s) matches Some(t) && is_int_token(t) && in_i64_range(int_token_val(t))
}

/// The integer carried by a season label after its first space.
pub open spec fn label_num(s: Seq<char>) -> int {
    match second_token_of(s) {
        Some(t) => int_token_val(t),
        None => 0,
    }
}

/// Parses the integer that follows the first space of a season label.
pub fn parse_label_num(s: &str) -> (r: Option<i64>)
    ensures
        r is Some <==> label_has_num(s@),
        r matches Some(v) ==> v as int == label_num(s@),
{
    match second_token(s) {
        Some(t) => parse_i64(t.as_str()),
        None => None,
    }
}

} // verus!
