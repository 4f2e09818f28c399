//! Small verified text utilities: character classes, trimming, equality and
//! decimal formatting, shared by the auth and request-handling modules.

use vstd::prelude::*;

verus! {

/// The Unicode `White_Space` code points, the class `char::is_whitespace`
/// and `str::trim` go by.
pub open spec fn is_space_char(c: char) -> bool {
    let n = c as int;
    ||| n == 0x9
    ||| n == 0xA
    ||| n == 0xB
    ||| n == 0xC
    ||| n == 0xD
    ||| n == 0x20
    ||| n == 0x85
    ||| n == 0xA0
    ||| n == 0x1680
    ||| (0x2000 <= n <= 0x200A)
    ||| n == 0x2028
    ||| n == 0x2029
    ||| n == 0x202F
    ||| n == 0x205F
    ||| n == 0x3000
}

/// Exec test for [`is_space_char`].
pub fn is_space_char_exec(c: char) -> (r: bool)
    ensures
        r == is_space_char(c),
{
    let n = c as u32;
    n == 0x9 || n == 0xA || n == 0xB || n == 0xC || n == 0xD || n == 0x20 || n == 0x85 || n == 0xA0
        || n == 0x1680 || (0x2000 <= n && n <= 0x200A) || n == 0x2028 || n == 0x2029 || n == 0x202F
        || n == 0x205F || n == 0x3000
}

/// How many whitespace characters the text starts with.
pub open spec fn leading_ws(s: Seq<char>) -> int
    decreases s.len(),
{
    if s.len() == 0 || !is_space_char(s[0]) {
        0
    } else {
        1 + leading_ws(s.drop_first())
    }
}

/// How many whitespace characters the text ends with.
pub open spec fn trailing_ws(s: Seq<char>) -> int
    decreases s.len(),
{
    if s.len() == 0 || !is_space_char(s.last()) {
        0
    } else {
        1 + trailing_ws(s.drop_last())
    }
}

/// What `leading_ws` counts: the longest whitespace prefix.
pub proof fn lemma_leading_ws(s: Seq<char>)
    ensures
        0 <= leading_ws(s) <= s.len(),
        forall|i: int| 0 <= i < leading_ws(s) ==> is_space_char(#[trigger] s[i]),
        leading_ws(s) < s.len() ==> !is_space_char(s[leading_ws(s)]),
    decreases s.len(),
{
    if s.len() > 0 && is_space_char(s[0]) {
        lemma_leading_ws(s.drop_first());
        assert forall|i: int| 0 <= i < leading_ws(s) implies is_space_char(#[trigger] s[i]) by {
            if i >= 1 {
                assert(s.drop_first()[i - 1] == s[i]);
                assert(is_space_char(s.drop_first()[i - 1]));
            }
        }
        if leading_ws(s) < s.len() {
            assert(s.drop_first()[leading_ws(s.drop_first())] == s[leading_ws(s)]);
        }
    }
}

/// What `trailing_ws` counts: the longest whitespace suffix.
pub proof fn lemma_trailing_ws(s: Seq<char>)
    ensures
        0 <= trailing_ws(s) <= s.len(),
        forall|i: int| s.len() - trailing_ws(s) <= i < s.len() ==> is_space_char(#[trigger] s[i]),
        trailing_ws(s) < s.len() ==> !is_space_char(s[s.len() - trailing_ws(s) - 1]),
    decreases s.len(),
{
    if s.len() > 0 && is_space_char(s.last()) {
        lemma_trailing_ws(s.drop_last());
        let d = s.drop_last();
        assert forall|i: int| s.len() - trailing_ws(s) <= i < s.len() implies is_space_char(
            #[trigger] s[i],
        ) by {
            if i < s.len() - 1 {
                assert(d[i] == s[i]);
                assert(is_space_char(d[i]));
            }
        }
        if trailing_ws(s) < s.len() {
            assert(d[d.len() - trailing_ws(d) - 1] == s[s.len() - trailing_ws(s) - 1]);
        }
    }
}

/// The text with its whitespace prefix and suffix removed, as `str::trim`
/// leaves it.
pub open spec fn trim_spec(s: Seq<char>) -> Seq<char> {
    if leading_ws(s) == s.len() {
        Seq::empty()
    } else {
        s.subrange(leading_ws(s), s.len() - trailing_ws(s))
    }
}

/// Is the text whitespace only (so that trimming leaves nothing)?
pub open spec fn is_blank(s: Seq<char>) -> bool {
    leading_ws(s) == s.len()
}

/// Exec test for [`is_blank`].
pub fn is_blank_exec(s: &str) -> (r: bool)
    ensures
        r == is_blank(s@),
{
    proof {
        lemma_leading_ws(s@);
    }
    let n = s.unicode_len();
    let mut i: usize = 0;
    while i < n
        invariant
            i <= n,
            n == s@.len(),
            forall|j: int| 0 <= j < i ==> is_space_char(#[trigger] s@[j]),
            0 <= leading_ws(s@) <= s@.len(),
            forall|j: int| 0 <= j < leading_ws(s@) ==> is_space_char(#[trigger] s@[j]),
            leading_ws(s@) < s@.len() ==> !is_space_char(s@[leading_ws(s@)]),
        decreases n - i,
    {
        let c = s.get_char(i);
        if !is_space_char_exec(c) {
            proof {
                assert(!is_space_char(s@[i as int]));
            }
            return false;
        }
        i = i + 1;
    }
    proof {
        if leading_ws(s@) < s@.len() {
            assert(is_space_char(s@[leading_ws(s@)]));
        }
    }
    true
}

/// Trims whitespace from both ends, as `str::trim` does.
pub fn trim_exec(s: &str) -> (r: String)
    ensures
        r@ == trim_spec(s@),
{
    proof {
        lemma_leading_ws(s@);
        lemma_trailing_ws(s@);
    }
    let n = s.unicode_len();
    let mut l: usize = 0;
    while l < n && is_space_char_exec(s.get_char(l))
        invariant
            l <= n,
            n == s@.len(),
            forall|j: int| 0 <= j < l ==> is_space_char(#[trigger] s@[j]),
            0 <= leading_ws(s@) <= s@.len(),
            forall|j: int| 0 <= j < leading_ws(s@) ==> is_space_char(#[trigger] s@[j]),
            leading_ws(s@) < s@.len() ==> !is_space_char(s@[leading_ws(s@)]),
        decreases n - l,
    {
        l = l + 1;
    }
    proof {
        if l < n {
            assert(!is_space_char(s@[l as int]));
        }
        assert(l == leading_ws(s@)) by {
            if l < leading_ws(s@) {
                assert(is_space_char(s@[l as int]));
            }
            if leading_ws(s@) < l {
                assert(is_space_char(s@[leading_ws(s@)]));
            }
        }
    }
    if l == n {
        return String::new();
    }
    let mut t: usize = 0;
    while t < n && is_space_char_exec(s.get_char(n - 1 - t))
        invariant
            t <= n,
            n == s@.len(),
            forall|j: int| n - t <= j < n ==> is_space_char(#[trigger] s@[j]),
            0 <= trailing_ws(s@) <= s@.len(),
            forall|j: int|
                s@.len() - trailing_ws(s@) <= j < s@.len() ==> is_space_char(#[trigger] s@[j]),
            trailing_ws(s@) < s@.len() ==> !is_space_char(s@[s@.len() - trailing_ws(s@) - 1]),
            l < n,
            l == leading_ws(s@),
            !is_space_char(s@[l as int]),
        decreases n - t,
    {
        t = t + 1;
        proof {
            if t == n {
                assert(is_space_char(s@[l as int]));
            }
        }
    }
    proof {
        if t < n {
            assert(!is_space_char(s@[n - 1 - t]));
        }
        assert(t == trailing_ws(s@)) by {
            if t < trailing_ws(s@) {
                assert(is_space_char(s@[s@.len() - 1 - t]));
            }
            if trailing_ws(s@) < t {
                assert(is_space_char(s@[s@.len() - trailing_ws(s@) - 1]));
            }
        }
        assert(l + (n - t) - l <= n);
    }
    s.substring_char(l, n - t).to_owned()
}

/// Does the text contain the character?
pub fn contains_char(s: &str, c: char) -> (r: bool)
    ensures
        r == s@.contains(c),
{
    let n = s.unicode_len();
    let mut i: usize = 0;
    while i < n
        invariant
            i <= n,
            n == s@.len(),
            forall|j: int| 0 <= j < i ==> s@[j] != c,
        decreases n - i,
    {
        if s.get_char(i) == c {
            proof {
                assert(s@[i as int] == c);
            }
            return true;
        }
        i = i + 1;
    }
    false
}

/// Are the two texts equal, character for character?
pub fn str_eq(a: &str, b: &str) -> (r: bool)
    ensures
        r == (a@ == b@),
{
    let n = a.unicode_len();
    if n != b.unicode_len() {
        return false;
    }
    let mut i: usize = 0;
    while i < n
        invariant
            i <= n,
            n == a@.len(),
            n == b@.len(),
            forall|j: int| 0 <= j < i ==> a@[j] == b@[j],
        decreases n - i,
    {
        if a.get_char(i) != b.get_char(i) {
            return false;
        }
        i = i + 1;
    }
    proof {
        assert(a@ =~= b@);
    }
    true
}

/// The decimal digits of a number, most significant first.
pub open spec fn dec_digits(n: nat) -> Seq<char>
    decreases n,
{
    if n < 10 {
        seq![digit_char(n)]
    } else {
        dec_digits(n / 10).push(digit_char(n % 10))
    }
}

/// The decimal notation of an integer: a minus sign for negative values,
/// then the digits.
pub open spec fn int_str(i: int) -> Seq<char> {
    if i < 0 {
        seq!['-'] + dec_digits((-i) as nat)
    } else {
        dec_digits(i as nat)
    }
}

/// The digit character of one decimal digit.
pub open spec fn digit_char(d: nat) -> char {
    if d == 0 {
        '0'
    } else if d == 1 {
        '1'
    } else if d == 2 {
        '2'
    } else if d == 3 {
        '3'
    } else if d == 4 {
        '4'
    } else if d == 5 {
        '5'
    } else if d == 6 {
        '6'
    } else if d == 7 {
        '7'
    } else if d == 8 {
        '8'
    } else {
        '9'
    }
}

/// The text of one decimal digit.
fn digit_str(d: u64) -> (r: &'static str)
    requires
        d < 10,
    ensures
        r@ =~= seq![digit_char(d as nat)],
{
    proof {
        reveal_strlit("0");
        reveal_strlit("1");
        reveal_strlit("2");
        reveal_strlit("3");
        reveal_strlit("4");
        reveal_strlit("5");
        reveal_strlit("6");
        reveal_strlit("7");
        reveal_strlit("8");
        reveal_strlit("9");
    }
    if d == 0 {
        "0"
    } else if d == 1 {
        "1"
    } else if d == 2 {
        "2"
    } else if d == 3 {
        "3"
    } else if d == 4 {
        "4"
    } else if d == 5 {
        "5"
    } else if d == 6 {
        "6"
    } else if d == 7 {
        "7"
    } else if d == 8 {
        "8"
    } else {
        "9"
    }
}

/// Formats a number in decimal.
pub fn u64_to_string(n: u64) -> (r: String)
    ensures
        r@ == dec_digits(n as nat),
    decreases n,
{
    if n < 10 {
        digit_str(n).to_owned()
    } else {
        let mut s = u64_to_string(n / 10);
        s.append(digit_str(n % 10));
        proof {
            assert(s@ =~= dec_digits((n / 10) as nat).push(digit_char((n % 10) as nat)));
        }
        s
    }
}

/// Formats a signed number in decimal, with a leading minus sign when it is
/// negative.
pub fn i32_to_string(i: i32) -> (r: String)
    ensures
        r@ == int_str(i as int),
{
    proof {
        reveal_strlit("-");
    }
    if i >= 0 {
        u64_to_string(i as u64)
    } else {
        let magnitude = (-(i as i64)) as u64;
        let mut s = "-".to_owned();
        let digits = u64_to_string(magnitude);
        s.append(digits.as_str());
        proof {
            assert(s@ =~= seq!['-'] + dec_digits((-(i as int)) as nat));
        }
        s
    }
}

} // verus!
