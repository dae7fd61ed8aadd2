//! Text helpers: decimal and hexadecimal numerals, trimming, and the
//! single-byte Cyrillic code page of the legacy file format.
use vstd::prelude::*;
use vstd::string::*;

verus! {

/// The character of a decimal digit.
pub open spec fn digit_char(d: int) -> char {
    (48 + d) as char
}

/// The decimal numeral of a natural number, most significant digit first.
pub open spec fn decimal(n: nat) -> Seq<char>
    decreases n,
{
    if n < 10 {
        seq![digit_char(n as int)]
    } else {
        decimal(n / 10).push(digit_char((n % 10) as int))
    }
}

/// A decimal numeral is non-empty and made of ASCII digits.
pub proof fn lemma_decimal_digits(n: nat)
    ensures
        decimal(n).len() >= 1,
        forall|i: int| 0 <= i < decimal(n).len() ==> is_ascii_digit(#[trigger] decimal(n)[i]),
    decreases n,
{
    if n >= 10 {
        lemma_decimal_digits(n / 10);
        assert forall|i: int| 0 <= i < decimal(n).len() implies is_ascii_digit(#[trigger] decimal(n)[i]) by {
            if i < decimal(n).len() - 1 {
                assert(decimal(n)[i] == decimal(n / 10)[i]);
            }
        }
    }
}

/// The character of a hexadecimal digit, upper case.
pub open spec fn hex_digit_char(d: int) -> char {
    if d < 10 {
        (48 + d) as char
    } else {
        (55 + d) as char
    }
}

/// The upper-case hexadecimal numeral of a natural number.
pub open spec fn hex(n: nat) -> Seq<char>
    decreases n,
{
    if n < 16 {
        seq![hex_digit_char(n as int)]
    } else {
        hex(n / 16).push(hex_digit_char((n % 16) as int))
    }
}

/// The hexadecimal numeral of `n`, with leading zeros up to `width` digits.
pub open spec fn hex_padded(n: nat, width: nat) -> Seq<char> {
    let h = hex(n);
    if h.len() < width {
        Seq::new((width - h.len()) as nat, |i: int| '0') + h
    } else {
        h
    }
}

fn hex_chars(n: u64) -> (v: Vec<char>)
    ensures
        v@ == hex(n as nat),
    decreases n,
{
    let d = n % 16;
    let c = if d < 10 { ((48 + d) as u8) as char } else { ((55 + d) as u8) as char };
    if n < 16 {
        let mut v = Vec::new();
        v.push(c);
        v
    } else {
        let mut v = hex_chars(n / 16);
        v.push(c);
        v
    }
}

/// Appends the hexadecimal numeral of `n`, zero-padded to `width` digits.
pub fn push_hex_padded(s: &mut String, n: u64, width: usize)
    ensures
        final(s)@ == old(s)@ + hex_padded(n as nat, width as nat),
{
    let h = hex_chars(n);
    let ghost start = s@;
    if h.len() < width {
        let pad = width - h.len();
        let mut i: usize = 0;
        while i < pad
            invariant
                i <= pad,
                s@ == start + Seq::new(i as nat, |k: int| '0'),
            decreases pad - i,
        {
            push_char(s, '0');
            proof {
                assert(Seq::new((i + 1) as nat, |k: int| '0') =~= Seq::new(i as nat, |k: int| '0').push('0'));
            }
            i = i + 1;
        }
    }
    push_chars(s, &h);
    proof {
        if h@.len() < width {
            assert(start + Seq::new((width - h@.len()) as nat, |k: int| '0') + h@ == start + (Seq::new(
                (width - h@.len()) as nat,
                |k: int| '0',
            ) + h@));
        }
    }
}

/// The decimal numeral of an integer, with a leading `-` when it is negative.
pub open spec fn signed_decimal(n: int) -> Seq<char> {
    if n < 0 {
        seq!['-'] + decimal((-n) as nat)
    } else {
        decimal(n as nat)
    }
}

/// Appends one character to a `String` (std's `String::push`).
#[verifier::external_body]
pub fn push_char(s: &mut String, c: char)
    ensures
        final(s)@ == old(s)@.push(c),
{
    s.push(c);
}

/// Appends a string slice to a `String`.
pub fn push_str(s: &mut String, t: &str)
    ensures
        final(s)@ == old(s)@ + t@,
{
    s.append(t);
}

/// Appends the characters of a sequence to a `String`.
pub fn push_chars(s: &mut String, cs: &Vec<char>)
    ensures
        final(s)@ == old(s)@ + cs@,
{
    let ghost start = s@;
    let mut i: usize = 0;
    while i < cs.len()
        invariant
            i <= cs.len(),
            s@ == start + cs@.subrange(0, i as int),
        decreases cs.len() - i,
    {
        push_char(s, cs[i]);
        proof {
            assert(cs@.subrange(0, i + 1) == cs@.subrange(0, i as int).push(cs@[i as int]));
        }
        i = i + 1;
    }
    proof {
        assert(cs@.subrange(0, cs@.len() as int) == cs@);
    }
}

/// A `String` holding the given characters.
pub fn string_of_chars(cs: &Vec<char>) -> (s: String)
    ensures
        s@ == cs@,
{
    let mut s = String::new();
    push_chars(&mut s, cs);
    proof {
        assert(Seq::<char>::empty() + cs@ == cs@);
    }
    s
}

/// The characters of a string slice.
pub fn chars_of(s: &str) -> (v: Vec<char>)
    ensures
        v@ == s@,
{
    let mut v: Vec<char> = Vec::new();
    for c in it: s.chars()
        invariant
            it.seq() == s@,
            v@ == s@.take(it.index() as int),
    {
        proof {
            assert(s@.take(it.index() + 1) == s@.take(it.index() as int).push(c));
        }
        v.push(c);
    }
    proof {
        assert(s@.take(s@.len() as int) == s@);
    }
    v
}

/// The decimal numeral of `n`, most significant digit first.
pub fn decimal_chars(n: u64) -> (v: Vec<char>)
    ensures
        v@ == decimal(n as nat),
    decreases n,
{
    if n < 10 {
        let c = ((48 + n) as u8) as char;
        let mut v = Vec::new();
        v.push(c);
        v
    } else {
        let mut v = decimal_chars(n / 10);
        let c = ((48 + n % 10) as u8) as char;
        v.push(c);
        v
    }
}

/// Appends the decimal numeral of `n`.
pub fn push_decimal(s: &mut String, n: u64)
    ensures
        final(s)@ == old(s)@ + decimal(n as nat),
{
    let v = decimal_chars(n);
    push_chars(s, &v);
}

/// Appends the decimal numeral of a signed `n`.
pub fn push_signed_decimal(s: &mut String, n: i64)
    ensures
        final(s)@ == old(s)@ + signed_decimal(n as int),
{
    if n < 0 {
        push_char(s, '-');
        let m: u64 = if n == i64::MIN { 0x8000_0000_0000_0000u64 } else { (0 - n) as u64 };
        let v = decimal_chars(m);
        push_chars(s, &v);
        proof {
            assert(seq!['-'] + decimal(m as nat) == seq!['-'].add(decimal(m as nat)));
        }
    } else {
        push_decimal(s, n as u64);
    }
}

/// `char::is_whitespace`: the Unicode `White_Space` characters.
pub open spec fn is_white_space(c: char) -> bool {
    let v = c as u32;
    (9 <= v <= 13) || v == 32 || v == 0x85 || v == 0xA0 || v == 0x1680 || (0x2000 <= v <= 0x200A)
        || v == 0x2028 || v == 0x2029 || v == 0x202F || v == 0x205F || v == 0x3000
}

/// `char::is_control`: the Unicode control characters (category `Cc`).
pub open spec fn is_control(c: char) -> bool {
    let v = c as u32;
    v <= 0x1F || (0x7F <= v <= 0x9F)
}

/// `char::is_ascii_digit`.
pub open spec fn is_ascii_digit(c: char) -> bool {
    48 <= (c as u32) <= 57
}

/// A character that trimming removes: white space, and control characters when `ctrl`.
pub open spec fn strippable(c: char, ctrl: bool) -> bool {
    is_white_space(c) || (ctrl && is_control(c))
}

/// `s` without its leading strippable characters.
pub open spec fn trim_front(s: Seq<char>, ctrl: bool) -> Seq<char>
    decreases s.len(),
{
    if s.len() > 0 && strippable(s[0], ctrl) {
        trim_front(s.drop_first(), ctrl)
    } else {
        s
    }
}

/// `s` without its trailing strippable characters.
pub open spec fn trim_back(s: Seq<char>, ctrl: bool) -> Seq<char>
    decreases s.len(),
{
    if s.len() > 0 && strippable(s.last(), ctrl) {
        trim_back(s.drop_last(), ctrl)
    } else {
        s
    }
}

/// `s` without leading and trailing strippable characters (`str::trim` when
/// `ctrl` is false).
pub open spec fn trimmed(s: Seq<char>, ctrl: bool) -> Seq<char> {
    trim_back(trim_front(s, ctrl), ctrl)
}

/// Whether `c` is white space.
pub fn char_is_white_space(c: char) -> (r: bool)
    ensures
        r == is_white_space(c),
{
    let v = c as u32;
    (9 <= v && v <= 13) || v == 32 || v == 0x85 || v == 0xA0 || v == 0x1680 || (0x2000 <= v && v
        <= 0x200A) || v == 0x2028 || v == 0x2029 || v == 0x202F || v == 0x205F || v == 0x3000
}

/// Whether `c` is a control character.
pub fn char_is_control(c: char) -> (r: bool)
    ensures
        r == is_control(c),
{
    let v = c as u32;
    v <= 0x1F || (0x7F <= v && v <= 0x9F)
}

/// Whether `c` is an ASCII digit.
pub fn char_is_ascii_digit(c: char) -> (r: bool)
    ensures
        r == is_ascii_digit(c),
{
    let v = c as u32;
    48 <= v && v <= 57
}

fn char_strippable(c: char, ctrl: bool) -> (r: bool)
    ensures
        r == strippable(c, ctrl),
{
    char_is_white_space(c) || (ctrl && char_is_control(c))
}

proof fn lemma_trim_front(s: Seq<char>, ctrl: bool, a: int)
    requires
        0 <= a <= s.len(),
        forall|i: int| 0 <= i < a ==> strippable(#[trigger] s[i], ctrl),
        a == s.len() || !strippable(s[a], ctrl),
    ensures
        trim_front(s, ctrl) == s.subrange(a, s.len() as int),
    decreases a,
{
    if a > 0 {
        assert forall|i: int| 0 <= i < a - 1 implies strippable(#[trigger] s.drop_first()[i], ctrl) by {
            assert(s.drop_first()[i] == s[i + 1]);
        }
        if a < s.len() {
            assert(s.drop_first()[a - 1] == s[a]);
        }
        lemma_trim_front(s.drop_first(), ctrl, a - 1);
        assert(s.drop_first().subrange(a - 1, s.len() - 1) == s.subrange(a, s.len() as int));
    } else {
        assert(s.subrange(0, s.len() as int) == s);
    }
}

proof fn lemma_trim_back(s: Seq<char>, ctrl: bool, b: int)
    requires
        0 <= b <= s.len(),
        forall|i: int| b <= i < s.len() ==> strippable(#[trigger] s[i], ctrl),
        b == 0 || !strippable(s[b - 1], ctrl),
    ensures
        trim_back(s, ctrl) == s.subrange(0, b),
    decreases s.len() - b,
{
    if b < s.len() {
        assert(strippable(s.last(), ctrl));
        assert forall|i: int| b <= i < s.len() - 1 implies strippable(#[trigger] s.drop_last()[i], ctrl) by {
            assert(s.drop_last()[i] == s[i]);
        }
        if b > 0 {
            assert(s.drop_last()[b - 1] == s[b - 1]);
        }
        lemma_trim_back(s.drop_last(), ctrl, b);
        assert(s.drop_last().subrange(0, b) == s.subrange(0, b));
    } else {
        assert(s.subrange(0, s.len() as int) == s);
    }
}

/// `cs` without leading and trailing white space (and control characters when `ctrl`).
pub fn trim_chars(cs: &Vec<char>, ctrl: bool) -> (r: Vec<char>)
    ensures
        r@ == trimmed(cs@, ctrl),
{
    let n = cs.len();
    let mut a: usize = 0;
    while a < n && char_strippable(cs[a], ctrl)
        invariant
            a <= n,
            n == cs@.len(),
            forall|i: int| 0 <= i < a ==> strippable(#[trigger] cs@[i], ctrl),
        decreases n - a,
    {
        a = a + 1;
    }
    proof {
        lemma_trim_front(cs@, ctrl, a as int);
    }
    let ghost front = cs@.subrange(a as int, n as int);
    let mut b: usize = n;
    while b > a && char_strippable(cs[b - 1], ctrl)
        invariant
            a <= b <= n,
            n == cs@.len(),
            forall|i: int| b <= i < n ==> strippable(#[trigger] cs@[i], ctrl),
        decreases b,
    {
        b = b - 1;
    }
    proof {
        assert forall|i: int| b - a <= i < front.len() implies strippable(#[trigger] front[i], ctrl) by {
            assert(front[i] == cs@[i + a]);
        }
        if b > a {
            assert(front[b - a - 1] == cs@[b - 1]);
        }
        lemma_trim_back(front, ctrl, (b - a) as int);
        assert(front.subrange(0, (b - a) as int) == cs@.subrange(a as int, b as int));
    }
    let mut r: Vec<char> = Vec::new();
    let mut i: usize = a;
    while i < b
        invariant
            a <= i <= b <= n,
            n == cs@.len(),
            r@ == cs@.subrange(a as int, i as int),
        decreases b - i,
    {
        r.push(cs[i]);
        proof {
            assert(cs@.subrange(a as int, i + 1) == cs@.subrange(a as int, i as int).push(cs@[i as int]));
        }
        i = i + 1;
    }
    r
}

/// A name made of one of `prefixes` followed by at least one ASCII digit
/// and nothing else, once white space around it is trimmed.
pub open spec fn is_auto_name_spec(s: Seq<char>, prefixes: Seq<char>) -> bool {
    let t = trimmed(s, false);
    &&& t.len() >= 2
    &&& prefixes.contains(t[0])
    &&& forall|i: int| 1 <= i < t.len() ==> is_ascii_digit(#[trigger] t[i])
}

/// Whether `name` is an automatic name with one of `prefixes`.
#[verifier::loop_isolation(false)]
pub fn is_auto_name(name: &str, prefixes: &[char]) -> (r: bool)
    ensures
        r == is_auto_name_spec(name@, prefixes@),
{
    let cs = chars_of(name);
    let t = trim_chars(&cs, false);
    if t.len() < 2 {
        return false;
    }
    let first = t[0];
    let mut found = false;
    let mut k: usize = 0;
    while k < prefixes.len()
        invariant
            k <= prefixes@.len(),
            found <==> prefixes@.take(k as int).contains(first),
        decreases prefixes@.len() - k,
    {
        proof {
            assert(prefixes@.take(k + 1) == prefixes@.take(k as int).push(prefixes@[k as int]));
        }
        if prefixes[k] == first {
            found = true;
        }
        proof {
            if found {
                let pre = prefixes@.take(k as int);
                if pre.contains(first) {
                    let j = choose|j: int| 0 <= j < pre.len() && pre[j] == first;
                    assert(prefixes@.take(k + 1)[j] == first);
                } else {
                    assert(prefixes@.take(k + 1)[k as int] == first);
                }
            } else {
                let pre = prefixes@.take(k as int);
                let post = prefixes@.take(k + 1);
                if post.contains(first) {
                    let j = choose|j: int| 0 <= j < post.len() && post[j] == first;
                    assert(pre[j] == first);
                }
            }
        }
        k = k + 1;
    }
    proof {
        assert(prefixes@.take(prefixes@.len() as int) == prefixes@);
    }
    if !found {
        return false;
    }
    let mut i: usize = 1;
    while i < t.len()
        invariant
            1 <= i <= t@.len(),
            forall|j: int| 1 <= j < i ==> is_ascii_digit(#[trigger] t@[j]),
        decreases t@.len() - i,
    {
        if !char_is_ascii_digit(t[i]) {
            return false;
        }
        i = i + 1;
    }
    true
}

} // verus!
