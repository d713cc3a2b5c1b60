//! Text helpers for the engine: splitting a free-text name at its first
//! space, lexicographic ordering of strings (used for deterministic
//! sorting), and rendering day numbers, month names and weekday names.

use vstd::prelude::*;

verus! {

/// Index of the first space in `s`, or `s.len()` when `s` holds none.
pub open spec fn first_space_index(s: Seq<char>) -> int
    decreases s.len(),
{
    if s.len() == 0 {
        0
    } else if s[0] == ' ' {
        0
    } else {
        1 + first_space_index(s.drop_first())
    }
}

/// `first_space_index` is the least index holding a space.
pub proof fn lemma_first_space_index(s: Seq<char>)
    ensures
        0 <= first_space_index(s) <= s.len(),
        forall|j: int| 0 <= j < first_space_index(s) ==> s[j] != ' ',
        first_space_index(s) < s.len() ==> s[first_space_index(s)] == ' ',
    decreases s.len(),
{
    if s.len() == 0 || s[0] == ' ' {
    } else {
        lemma_first_space_index(s.drop_first());
        assert forall|j: int| 0 <= j < first_space_index(s) implies s[j] != ' ' by {
            if j > 0 {
                assert(s.drop_first()[j - 1] == s[j]);
            }
        }
        if first_space_index(s) < s.len() {
            assert(s.drop_first()[first_space_index(s.drop_first())] == s[first_space_index(s)]);
        }
    }
}

/// Everything before the first space, or the whole string when there is no
/// space.
pub open spec fn first_token(s: Seq<char>) -> Seq<char> {
    s.subrange(0, first_space_index(s))
}

/// Everything after the first space, or empty when there is no space.
pub open spec fn after_first_space(s: Seq<char>) -> Seq<char> {
    if first_space_index(s) < s.len() {
        s.subrange(first_space_index(s) + 1, s.len() as int)
    } else {
        Seq::empty()
    }
}

/// Splits `s` at its first space: the prefix before it and the remainder
/// after it. Without a space the whole string is the prefix and the
/// remainder is empty.
pub fn split_at_first_space(s: &str) -> (r: (String, String))
    ensures
        r.0@ == first_token(s@),
        r.1@ == after_first_space(s@),
{
    let n = s.unicode_len();
    let mut i: usize = 0;
    while i < n && s.get_char(i) != ' '
        invariant
            i <= n,
            n == s@.len(),
            forall|j: int| 0 <= j < i ==> s@[j] != ' ',
        decreases n - i,
    {
        i = i + 1;
    }
    proof {
        lemma_first_space_index(s@);
        let k = first_space_index(s@);
        if k < i {
            assert(s@[k] != ' ');
            assert(false);
        }
        if i < k {
            assert(s@[i as int] != ' ');
            assert(false);
        }
    }
    let head = s.substring_char(0, i).to_owned();
    let tail = if i < n {
        s.substring_char(i + 1, n).to_owned()
    } else {
        proof {
            assert(after_first_space(s@) =~= Seq::<char>::empty());
        }
        String::new()
    };
    (head, tail)
}

/// Lexicographic order on character sequences by code point: the empty
/// sequence comes first, then by the first differing character.
pub open spec fn chars_le(a: Seq<char>, b: Seq<char>) -> bool
    decreases a.len(),
{
    if a.len() == 0 {
        true
    } else if b.len() == 0 {
        false
    } else if a[0] == b[0] {
        chars_le(a.drop_first(), b.drop_first())
    } else {
        (a[0] as int) < (b[0] as int)
    }
}

pub proof fn lemma_chars_le_total(a: Seq<char>, b: Seq<char>)
    ensures
        chars_le(a, b) || chars_le(b, a),
    decreases a.len(),
{
    if a.len() > 0 && b.len() > 0 && a[0] == b[0] {
        lemma_chars_le_total(a.drop_first(), b.drop_first());
    }
}

pub proof fn lemma_chars_le_antisymmetric(a: Seq<char>, b: Seq<char>)
    requires
        chars_le(a, b),
        chars_le(b, a),
    ensures
        a == b,
    decreases a.len(),
{
    if a.len() == 0 {
        assert(b.len() == 0);
        assert(a =~= b);
    } else {
        assert(a[0] == b[0]);
        lemma_chars_le_antisymmetric(a.drop_first(), b.drop_first());
        assert(a.len() == b.len());
        assert forall|j: int| 0 <= j < a.len() implies a[j] == b[j] by {
            if j > 0 {
                assert(a[j] == a.drop_first()[j - 1]);
                assert(b[j] == b.drop_first()[j - 1]);
            }
        }
        assert(a =~= b);
    }
}

pub proof fn lemma_chars_le_transitive(a: Seq<char>, b: Seq<char>, c: Seq<char>)
    requires
        chars_le(a, b),
        chars_le(b, c),
    ensures
        chars_le(a, c),
    decreases a.len(),
{
    if a.len() > 0 && b.len() > 0 && c.len() > 0 && a[0] == b[0] && b[0] == c[0] {
        lemma_chars_le_transitive(a.drop_first(), b.drop_first(), c.drop_first());
    }
}

/// Lexicographic comparison of two strings: `a` sorts on or before `b`.
pub fn str_le(a: &str, b: &str) -> (r: bool)
    ensures
        r == chars_le(a@, b@),
{
    let an = a.unicode_len();
    let bn = b.unicode_len();
    let mut i: usize = 0;
    proof {
        assert(a@.skip(0) =~= a@);
        assert(b@.skip(0) =~= b@);
    }
    while i < an && i < bn
        invariant
            i <= an,
            i <= bn,
            an == a@.len(),
            bn == b@.len(),
            chars_le(a@, b@) == chars_le(a@.skip(i as int), b@.skip(i as int)),
        decreases an - i,
    {
        let ca = a.get_char(i);
        let cb = b.get_char(i);
        if ca != cb {
            proof {
                assert(a@.skip(i as int)[0] == ca);
                assert(b@.skip(i as int)[0] == cb);
            }
            return (ca as u32) < (cb as u32);
        }
        proof {
            assert(a@.skip(i as int).drop_first() =~= a@.skip(i + 1));
            assert(b@.skip(i as int).drop_first() =~= b@.skip(i + 1));
        }
        i = i + 1;
    }
    proof {
        if i == an {
            assert(a@.skip(i as int).len() == 0);
        } else {
            assert(b@.skip(i as int).len() == 0);
            assert(a@.skip(i as int).len() > 0);
        }
    }
    an <= bn
}

pub open spec fn digit_char(d: int) -> char {
    if d == 0 {
        '0'
    } else if d == 1 {
        '1'
    } else if d == 2 {
        '2'
    } else if d == 3 {
        '3'
    } else if d == 4 {
        '4'
    } else if d == 5 {
        '5'
    } else if d == 6 {
        '6'
    } else if d == 7 {
        '7'
    } else if d == 8 {
        '8'
    } else {
        '9'
    }
}

/// Decimal rendering of a day of the month, without a leading zero.
pub open spec fn day_of_month_chars(n: int) -> Seq<char> {
    if n < 10 {
        seq![digit_char(n)]
    } else {
        seq![digit_char(n / 10), digit_char(n % 10)]
    }
}

fn digit_str(d: u32) -> (r: &'static str)
    requires
        d <= 9,
    ensures
        r@ == seq![digit_char(d as int)],
{
    proof {
        reveal_strlit("0");
        reveal_strlit("1");
        reveal_strlit("2");
        reveal_strlit("3");
        reveal_strlit("4");
        reveal_strlit("5");
        reveal_strlit("6");
        reveal_strlit("7");
        reveal_strlit("8");
        reveal_strlit("9");
    }
    let r: &'static str = if d == 0 {
        "0"
    } else if d == 1 {
        "1"
    } else if d == 2 {
        "2"
    } else if d == 3 {
        "3"
    } else if d == 4 {
        "4"
    } else if d == 5 {
        "5"
    } else if d == 6 {
        "6"
    } else if d == 7 {
        "7"
    } else if d == 8 {
        "8"
    } else {
        "9"
    };
    proof {
        assert(r@ =~= seq![digit_char(d as int)]);
    }
    r
}

/// The day of the month as a decimal string, one or two digits.
pub fn day_of_month_string(n: u32) -> (r: String)
    requires
        1 <= n <= 31,
    ensures
        r@ == day_of_month_chars(n as int),
{
    if n < 10 {
        digit_str(n).to_owned()
    } else {
        let mut s = digit_str(n / 10).to_owned();
        s.append(digit_str(n % 10));
        proof {
            assert(s@ =~= day_of_month_chars(n as int));
        }
        s
    }
}

/// Two decimal digits, zero padded.
pub open spec fn two_digit_chars(n: int) -> Seq<char> {
    seq![digit_char(n / 10), digit_char(n % 10)]
}

/// Four decimal digits, zero padded.
pub open spec fn four_digit_chars(n: int) -> Seq<char> {
    seq![
        digit_char(n / 1000),
        digit_char((n / 100) % 10),
        digit_char((n / 10) % 10),
        digit_char(n % 10),
    ]
}

pub fn two_digit_string(n: u32) -> (r: String)
    requires
        n <= 99,
    ensures
        r@ == two_digit_chars(n as int),
{
    let mut s = digit_str(n / 10).to_owned();
    s.append(digit_str(n % 10));
    proof {
        assert(s@ =~= two_digit_chars(n as int));
    }
    s
}

pub fn four_digit_string(n: u32) -> (r: String)
    requires
        n <= 9999,
    ensures
        r@ == four_digit_chars(n as int),
{
    let mut s = digit_str(n / 1000).to_owned();
    s.append(digit_str((n / 100) % 10));
    s.append(digit_str((n / 10) % 10));
    s.append(digit_str(n % 10));
    proof {
        assert(s@ =~= four_digit_chars(n as int));
    }
    s
}

/// English month names, January through December.
pub open spec fn month_name_chars(m: int) -> Seq<char> {
    if m == 1 {
        "January"@
    } else if m == 2 {
        "February"@
    } else if m == 3 {
        "March"@
    } else if m == 4 {
        "April"@
    } else if m == 5 {
        "May"@
    } else if m == 6 {
        "June"@
    } else if m == 7 {
        "July"@
    } else if m == 8 {
        "August"@
    } else if m == 9 {
        "September"@
    } else if m == 10 {
        "October"@
    } else if m == 11 {
        "November"@
    } else {
        "December"@
    }
}

pub fn month_name(m: u32) -> (r: &'static str)
    requires
        1 <= m <= 12,
    ensures
        r@ == month_name_chars(m as int),
{
    if m == 1 {
        "January"
    } else if m == 2 {
        "February"
    } else if m == 3 {
        "March"
    } else if m == 4 {
        "April"
    } else if m == 5 {
        "May"
    } else if m == 6 {
        "June"
    } else if m == 7 {
        "July"
    } else if m == 8 {
        "August"
    } else if m == 9 {
        "September"
    } else if m == 10 {
        "October"
    } else if m == 11 {
        "November"
    } else {
        "December"
    }
}

/// English weekday names, counted from Monday as 0.
pub open spec fn weekday_name_chars(w: int) -> Seq<char> {
    if w == 0 {
        "Monday"@
    } else if w == 1 {
        "Tuesday"@
    } else if w == 2 {
        "Wednesday"@
    } else if w == 3 {
        "Thursday"@
    } else if w == 4 {
        "Friday"@
    } else if w == 5 {
        "Saturday"@
    } else {
        "Sunday"@
    }
}

pub fn weekday_name(w: u32) -> (r: &'static str)
    requires
        w <= 6,
    ensures
        r@ == weekday_name_chars(w as int),
{
    if w == 0 {
        "Monday"
    } else if w == 1 {
        "Tuesday"
    } else if w == 2 {
        "Wednesday"
    } else if w == 3 {
        "Thursday"
    } else if w == 4 {
        "Friday"
    } else if w == 5 {
        "Saturday"
    } else {
        "Sunday"
    }
}

} // verus!
