//! Decimal rendering of integers and the rules for path components.
use vstd::prelude::*;

verus! {

/// The character for a decimal digit.
pub open spec fn digit_char(d: nat) -> char {
    if d == 0 {
        '0'
    } else if d == 1 {
        '1'
    } else if d == 2 {
        '2'
    } else if d == 3 {
        '3'
    } else if d == 4 {
        '4'
    } else if d == 5 {
        '5'
    } else if d == 6 {
        '6'
    } else if d == 7 {
        '7'
    } else if d == 8 {
        '8'
    } else {
        '9'
    }
}

/// Decimal digits of `n`, most significant first, without leading zeros.
pub open spec fn digits(n: nat) -> Seq<char>
    decreases n,
{
    if n < 10 {
        seq![digit_char(n)]
    } else {
        digits(n / 10).push(digit_char(n % 10))
    }
}

/// Decimal text of an integer, with a leading `-` when it is negative.
pub open spec fn int_text(n: int) -> Seq<char> {
    if n < 0 {
        seq!['-'] + digits((-n) as nat)
    } else {
        digits(n as nat)
    }
}

/// The separator that joins components into a path's text; no component holds it.
pub open spec fn is_separator(c: char) -> bool {
    c == '.'
}

/// A path component is non-empty and holds no separator.
pub open spec fn valid_component(s: Seq<char>) -> bool {
    s.len() > 0 && forall|i: int| 0 <= i < s.len() ==> !is_separator(#[trigger] s[i])
}

/// Every text in `cs` is a valid component.
pub open spec fn all_valid(cs: Seq<Seq<char>>) -> bool {
    forall|i: int| 0 <= i < cs.len() ==> valid_component(#[trigger] cs[i])
}

/// The views of a sequence of strings.
pub open spec fn texts(v: Seq<String>) -> Seq<Seq<char>> {
    v.map_values(|s: String| s@)
}

proof fn lemma_digit_char_injective(a: nat, b: nat)
    requires
        a < 10,
        b < 10,
        digit_char(a) == digit_char(b),
    ensures
        a == b,
{
}

proof fn lemma_digits_nonempty(n: nat)
    ensures
        digits(n).len() >= 1,
        n < 10 <==> digits(n).len() == 1,
    decreases n,
{
    if n >= 10 {
        lemma_digits_nonempty(n / 10);
    }
}

/// Distinct numbers have distinct decimal texts.
pub proof fn lemma_digits_injective(a: nat, b: nat)
    requires
        digits(a) == digits(b),
    ensures
        a == b,
    decreases a,
{
    lemma_digits_nonempty(a);
    lemma_digits_nonempty(b);
    let da = digits(a);
    let db = digits(b);
    if a < 10 {
        assert(da[0] == db[0]);
        lemma_digit_char_injective(a, b);
    } else {
        assert(b >= 10);
        assert(da.last() == digit_char(a % 10));
        assert(db.last() == digit_char(b % 10));
        lemma_digit_char_injective(a % 10, b % 10);
        assert(digits(a / 10) =~= da.drop_last());
        assert(digits(b / 10) =~= db.drop_last());
        lemma_digits_injective(a / 10, b / 10);
    }
}

/// Relies on `u64`'s `ToString` (its `Display`): the decimal digits of the
/// number, without sign or padding.
#[verifier::external_body]
fn u64_text(n: u64) -> (r: String)
    ensures
        r@ == digits(n as nat),
{
    n.to_string()
}

/// Decimal text of an unsigned number.
pub fn nat_text(n: u64) -> (r: String)
    ensures
        r@ == int_text(n as int),
{
    u64_text(n)
}

/// Decimal text of a signed 32-bit number.
pub fn i32_text(n: i32) -> (r: String)
    ensures
        r@ == int_text(n as int),
{
    if n < 0 {
        let magnitude: u64 = (-(n as i64)) as u64;
        let body = u64_text(magnitude);
        let sign = String::from_str("-");
        proof {
            reveal_strlit("-");
        }
        let r = sign.concat(body.as_str());
        assert(r@ =~= int_text(n as int));
        r
    } else {
        u64_text(n as u64)
    }
}

/// Tells whether `s` may stand as a path component.
pub fn is_valid_component(s: &String) -> (r: bool)
    ensures
        r == valid_component(s@),
{
    let n = s.as_str().unicode_len();
    if n == 0 {
        return false;
    }
    let mut i: usize = 0;
    while i < n
        invariant
            n == s@.len(),
            i <= n,
            forall|k: int| 0 <= k < i ==> !is_separator(#[trigger] s@[k]),
        decreases n - i,
    {
        let c = s.as_str().get_char(i);
        if c == '.' {
            return false;
        }
        i = i + 1;
    }
    true
}

/// Tells whether the two lists hold the same texts, in the same order.
pub fn same_texts(a: &Vec<String>, b: &Vec<String>) -> (r: bool)
    ensures
        r == (texts(a@) == texts(b@)),
{
    if a.len() != b.len() {
        assert(texts(a@).len() != texts(b@).len());
        return false;
    }
    let mut i: usize = 0;
    while i < a.len()
        invariant
            a.len() == b.len(),
            i <= a.len(),
            forall|k: int| 0 <= k < i ==> a@[k]@ == b@[k]@,
        decreases a.len() - i,
    {
        if a[i] != b[i] {
            assert(texts(a@)[i as int] != texts(b@)[i as int]);
            return false;
        }
        i = i + 1;
    }
    assert(texts(a@) =~= texts(b@));
    true
}

/// Copies a list of strings.
pub fn copy_texts(a: &Vec<String>, upto: usize) -> (r: Vec<String>)
    requires
        upto <= a.len(),
    ensures
        texts(r@) == texts(a@).subrange(0, upto as int),
{
    let mut r: Vec<String> = Vec::new();
    let mut i: usize = 0;
    while i < upto
        invariant
            upto <= a.len(),
            i <= upto,
            texts(r@) =~= texts(a@).subrange(0, i as int),
        decreases upto - i,
    {
        let c = a[i].clone();
        let ghost before = r@;
        r.push(c);
        assert(r@ == before.push(c));
        assert(texts(r@) =~= texts(before).push(c@));
        i = i + 1;
        assert(texts(r@) =~= texts(a@).subrange(0, i as int));
    }
    r
}

} // verus!
