//! Small text helpers: decimal rendering of small numbers and string equality.
use vstd::prelude::*;

verus! {

/// The character of a decimal digit.
pub open spec fn digit_char(d: nat) -> char {
    if d == 0 { '0' }
    else if d == 1 { '1' }
    else if d == 2 { '2' }
    else if d == 3 { '3' }
    else if d == 4 { '4' }
    else if d == 5 { '5' }
    else if d == 6 { '6' }
    else if d == 7 { '7' }
    else if d == 8 { '8' }
    else { '9' }
}

/// The decimal rendering of a natural number, most significant digit first,
/// without leading zeros.
pub open spec fn decimal(n: nat) -> Seq<char>
    decreases n,
{
    if n < 10 {
        seq![digit_char(n)]
    } else {
        decimal(n / 10).push(digit_char(n % 10))
    }
}

/// Appends the decimal digit `d` to `s`.
fn push_digit(s: &mut String, d: u8)
    requires
        d < 10,
    ensures
        final(s)@ == old(s)@.push(digit_char(d as nat)),
{
    proof {
        reveal_strlit("0");
        reveal_strlit("1");
        reveal_strlit("2");
        reveal_strlit("3");
        reveal_strlit("4");
        reveal_strlit("5");
        reveal_strlit("6");
        reveal_strlit("7");
        reveal_strlit("8");
        reveal_strlit("9");
    }
    if d == 0 {
        s.append("0");
    } else if d == 1 {
        s.append("1");
    } else if d == 2 {
        s.append("2");
    } else if d == 3 {
        s.append("3");
    } else if d == 4 {
        s.append("4");
    } else if d == 5 {
        s.append("5");
    } else if d == 6 {
        s.append("6");
    } else if d == 7 {
        s.append("7");
    } else if d == 8 {
        s.append("8");
    } else {
        s.append("9");
    }
}

/// Appends the decimal rendering of `n` to `s`.
pub fn push_decimal(s: &mut String, n: u8)
    ensures
        final(s)@ == old(s)@ + decimal(n as nat),
{
    if n >= 100 {
        push_digit(s, n / 100);
        push_digit(s, (n / 10) % 10);
        push_digit(s, n % 10);
        assert(decimal((n / 100) as nat) == seq![digit_char((n / 100) as nat)]);
        assert(decimal((n / 10) as nat) == decimal((n / 100) as nat).push(digit_char(((n / 10) % 10) as nat)));
    } else if n >= 10 {
        push_digit(s, n / 10);
        push_digit(s, n % 10);
        assert(decimal((n / 10) as nat) == seq![digit_char((n / 10) as nat)]);
    } else {
        push_digit(s, n);
    }
}

/// The name `prefix` followed by the decimal rendering of `n`.
pub fn numbered_name(prefix: &str, n: u8) -> (res: String)
    ensures
        res@ == prefix@ + decimal(n as nat),
{
    let mut s = prefix.to_owned();
    push_decimal(&mut s, n);
    s
}

/// Whether two string slices hold the same characters.
pub(crate) fn str_eq(a: &str, b: &str) -> (res: bool)
    ensures
        res == (a@ == b@),
{
    let left = a.to_owned();
    let right = b.to_owned();
    left == right
}

/// `i` is the first position of `x` in `s`.
pub open spec fn is_first_index(s: Seq<Seq<char>>, x: Seq<char>, i: int) -> bool {
    &&& 0 <= i < s.len()
    &&& s[i] == x
    &&& forall|j: int| 0 <= j < i ==> s[j] != x
}

/// The first position of `x` in `s`, if `x` occurs in it.
pub open spec fn first_index_of(s: Seq<Seq<char>>, x: Seq<char>) -> Option<int> {
    if exists|i: int| is_first_index(s, x, i) {
        Some(choose|i: int| is_first_index(s, x, i))
    } else {
        None
    }
}

/// `first_index_of` gives the first position of `x` in `s`, and nothing
/// exactly when `x` does not occur in `s`.
pub proof fn lemma_first_index_of(s: Seq<Seq<char>>, x: Seq<char>)
    ensures
        first_index_of(s, x) matches Some(i) ==> is_first_index(s, x, i),
        first_index_of(s, x) is None <==> forall|i: int| 0 <= i < s.len() ==> s[i] != x,
{
    if exists|i: int| 0 <= i < s.len() && s[i] == x {
        let i = choose|i: int| 0 <= i < s.len() && s[i] == x;
        lemma_first_occurrence(s, x, i);
    }
}

/// An occurrence of `x` in `s` at `i` means `x` has a first occurrence.
proof fn lemma_first_occurrence(s: Seq<Seq<char>>, x: Seq<char>, i: int)
    requires
        0 <= i < s.len(),
        s[i] == x,
    ensures
        exists|j: int| is_first_index(s, x, j),
    decreases i,
{
    if exists|k: int| 0 <= k < i && s[k] == x {
        let k = choose|k: int| 0 <= k < i && s[k] == x;
        lemma_first_occurrence(s, x, k);
    } else {
        assert(is_first_index(s, x, i));
    }
}

/// Finding `x` first at `i` means `first_index_of` is `i`.
pub proof fn lemma_first_index_found(s: Seq<Seq<char>>, x: Seq<char>, i: int)
    requires
        is_first_index(s, x, i),
    ensures
        first_index_of(s, x) == Some(i),
{
    let j = choose|j: int| is_first_index(s, x, j);
    assert(is_first_index(s, x, j));
    if j < i {
        assert(s[j] != x);
    } else if i < j {
        assert(s[i] != x);
    }
}

/// `x` not occurring in `s` means `first_index_of` is `None`.
pub proof fn lemma_first_index_absent(s: Seq<Seq<char>>, x: Seq<char>)
    requires
        forall|i: int| 0 <= i < s.len() ==> s[i] != x,
    ensures
        first_index_of(s, x) is None,
{
}

/// Every decimal rendering has at least one digit.
pub proof fn lemma_decimal_nonempty(n: nat)
    ensures
        decimal(n).len() >= 1,
    decreases n,
{
    if n >= 10 {
        lemma_decimal_nonempty(n / 10);
    }
}

/// A digit character determines the digit.
proof fn lemma_digit_char_injective(a: nat, b: nat)
    requires
        a < 10,
        b < 10,
        digit_char(a) == digit_char(b),
    ensures
        a == b,
{
}

/// Different numbers have different decimal renderings.
pub proof fn lemma_decimal_injective(a: nat, b: nat)
    requires
        decimal(a) == decimal(b),
    ensures
        a == b,
    decreases a + b,
{
    if a < 10 && b < 10 {
        assert(decimal(a) == seq![digit_char(a)]);
        assert(decimal(b) == seq![digit_char(b)]);
        assert(decimal(a)[0] == digit_char(a));
        assert(decimal(b)[0] == digit_char(b));
        lemma_digit_char_injective(a, b);
    } else if a < 10 {
        lemma_decimal_nonempty(b / 10);
        assert(decimal(b).len() >= 2);
    } else if b < 10 {
        lemma_decimal_nonempty(a / 10);
        assert(decimal(a).len() >= 2);
    } else {
        let da = decimal(a / 10);
        let db = decimal(b / 10);
        assert(decimal(a) == da.push(digit_char(a % 10)));
        assert(decimal(b) == db.push(digit_char(b % 10)));
        assert(da.len() == db.len());
        assert(da =~= decimal(a).drop_last());
        assert(db =~= decimal(b).drop_last());
        assert(decimal(a).last() == digit_char(a % 10));
        assert(decimal(b).last() == digit_char(b % 10));
        lemma_digit_char_injective(a % 10, b % 10);
        lemma_decimal_injective(a / 10, b / 10);
    }
}

} // verus!
