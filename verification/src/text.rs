//! Character-level search helpers shared by the message classifiers.
use vstd::prelude::*;

verus! {

/// The characters of `s`, in order.
pub fn chars_of(s: &str) -> (r: Vec<char>)
    ensures
        r@ == s@,
{
    let mut r: Vec<char> = Vec::new();
    for c in it: s.chars()
        invariant
            r@ == it.seq().take(it.index() as int),
            it.seq() == s@,
    {
        r.push(c);
    }
    r
}

/// Whether two texts are equal, character for character.
pub fn str_eq(a: &str, b: &str) -> (r: bool)
    ensures
        r == (a@ == b@),
{
    let x = chars_of(a);
    let y = chars_of(b);
    if x.len() != y.len() {
        return false;
    }
    let mut i: usize = 0;
    while i < x.len()
        invariant
            x@ == a@,
            y@ == b@,
            x@.len() == y@.len(),
            0 <= i <= x@.len(),
            forall|j: int| 0 <= j < i ==> x@[j] == y@[j],
        decreases x.len() - i,
    {
        if x[i] != y[i] {
            return false;
        }
        i = i + 1;
    }
    assert(x@ =~= y@);
    true
}

pub open spec fn is_ascii_digit(c: char) -> bool {
    '0' <= c <= '9'
}

/// The value of a string of decimal digits.
pub open spec fn decimal_value(d: Seq<char>) -> nat
    decreases d.len(),
{
    if d.len() == 0 {
        0
    } else {
        decimal_value(d.drop_last()) * 10 + ((d.last() as u32) - ('0' as u32)) as nat
    }
}

pub proof fn lemma_decimal_push(d: Seq<char>, c: char)
    ensures
        decimal_value(d.push(c)) == decimal_value(d) * 10 + ((c as u32) - ('0' as u32)) as nat,
{
    assert(d.push(c).drop_last() =~= d);
}

/// `s` without a leading `+`.
pub open spec fn unsigned_digits(s: Seq<char>) -> Seq<char> {
    if s.len() > 0 && s[0] == '+' {
        s.drop_first()
    } else {
        s
    }
}

pub open spec fn all_digits(d: Seq<char>) -> bool {
    forall|i: int| 0 <= i < d.len() ==> is_ascii_digit(#[trigger] d[i])
}

/// The value that `str::parse::<u64>` gives for `s`: an optional `+`, then
/// at least one decimal digit, with a value that fits in a `u64`.
pub open spec fn spec_parse_u64(s: Seq<char>) -> Option<u64> {
    let digits = unsigned_digits(s);
    if digits.len() > 0 && all_digits(digits) && decimal_value(digits) <= u64::MAX {
        Some(decimal_value(digits) as u64)
    } else {
        None
    }
}

/// Parses a decimal `u64` as `str::parse::<u64>` does.
pub fn parse_u64(s: &str) -> (r: Option<u64>)
    ensures
        r == spec_parse_u64(s@),
{
    let c = chars_of(s);
    let start: usize = if c.len() > 0 && c[0] == '+' {
        1
    } else {
        0
    };
    let ghost digits = unsigned_digits(c@);
    if start >= c.len() {
        return None;
    }
    let mut value: u64 = 0;
    let mut i: usize = start;
    proof {
        assert(digits =~= c@.subrange(start as int, c@.len() as int));
        assert(c@.subrange(start as int, start as int) =~= Seq::<char>::empty());
    }
    while i < c.len()
        invariant
            c@ == s@,
            start <= i <= c@.len(),
            c@.len() == c.len(),
            digits =~= c@.subrange(start as int, c@.len() as int),
            digits == unsigned_digits(c@),
            forall|j: int| start <= j < i ==> is_ascii_digit(c@[j]),
            value == decimal_value(c@.subrange(start as int, i as int)),
        decreases c.len() - i,
    {
        let ch = c[i];
        if ch < '0' || ch > '9' {
            assert(digits[i - start] == c@[i as int]);
            assert(!is_ascii_digit(digits[i - start]));
            assert(!all_digits(digits));
            return None;
        }
        let ghost prev = c@.subrange(start as int, i as int);
        proof {
            assert(c@.subrange(start as int, i + 1) =~= prev.push(ch));
            lemma_decimal_push(prev, ch);
        }
        let d = (ch as u32 - '0' as u32) as u64;
        match value.checked_mul(10) {
            Some(m) => match m.checked_add(d) {
                Some(v) => {
                    value = v;
                }
                None => {
                    proof {
                        assert(digits.subrange(0, i + 1 - start) =~= c@.subrange(start as int, i + 1));
                        if all_digits(digits) {
                            lemma_decimal_prefix_bound(digits, (i + 1 - start) as int);
                        }
                    }
                    return None;
                }
            },
            None => {
                proof {
                    assert(digits.subrange(0, i + 1 - start) =~= c@.subrange(start as int, i + 1));
                    if all_digits(digits) {
                        lemma_decimal_prefix_bound(digits, (i + 1 - start) as int);
                    }
                }
                return None;
            }
        }
        i = i + 1;
    }
    proof {
        assert(c@.subrange(start as int, i as int) =~= digits);
    }
    Some(value)
}

/// A prefix of a string of digits never has a larger value than the whole.
pub proof fn lemma_decimal_prefix_bound(d: Seq<char>, k: int)
    requires
        0 <= k <= d.len(),
        all_digits(d),
    ensures
        decimal_value(d.subrange(0, k)) <= decimal_value(d),
    decreases d.len() - k,
{
    if k < d.len() {
        lemma_decimal_prefix_bound(d, k + 1);
        let p = d.subrange(0, k);
        assert(d.subrange(0, k + 1) =~= p.push(d[k]));
        lemma_decimal_push(p, d[k]);
    } else {
        assert(d.subrange(0, k) =~= d);
    }
}

/// ASCII lower-casing of one character; other characters are unchanged.
pub open spec fn ascii_lower(c: char) -> char {
    if 'A' <= c <= 'Z' {
        ((c as u32) + 32) as char
    } else {
        c
    }
}

/// ASCII lower-casing of a whole text.
pub open spec fn ascii_lowercase(s: Seq<char>) -> Seq<char> {
    s.map_values(|c: char| ascii_lower(c))
}

/// `needle` occurs in `hay` at position `i`.
pub open spec fn occurs_at(hay: Seq<char>, needle: Seq<char>, i: int) -> bool {
    &&& 0 <= i
    &&& i + needle.len() <= hay.len()
    &&& forall|k: int| 0 <= k < needle.len() ==> hay[i + k] == needle[k]
}

/// `needle` occurs somewhere in `hay`.
pub open spec fn contains(hay: Seq<char>, needle: Seq<char>) -> bool {
    exists|i: int| occurs_at(hay, needle, i)
}

pub fn lower(c: char) -> (r: char)
    ensures
        r == ascii_lower(c),
{
    if c >= 'A' && c <= 'Z' {
        let r = ((c as u8) + 32) as char;
        assert(r as u32 == c as u32 + 32);
        r
    } else {
        c
    }
}

/// Whether `needle` occurs in `hay` at position `i`.
pub fn occurs_at_exec(hay: &Vec<char>, needle: &Vec<char>, i: usize) -> (r: bool)
    ensures
        r == occurs_at(hay@, needle@, i as int),
{
    if i > hay.len() || needle.len() > hay.len() - i {
        return false;
    }
    let mut k: usize = 0;
    while k < needle.len()
        invariant
            i + needle@.len() <= hay@.len(),
            hay@.len() == hay.len(),
            0 <= k <= needle@.len(),
            forall|j: int| 0 <= j < k ==> hay@[i + j] == needle@[j],
        decreases needle.len() - k,
    {
        assert(i + k < hay@.len());
        if hay[i + k] != needle[k] {
            return false;
        }
        k = k + 1;
    }
    true
}

/// Whether `needle` occurs anywhere in the ASCII lower-casing of `hay`.
pub fn contains_lowercased(hay: &Vec<char>, needle: &Vec<char>) -> (r: bool)
    ensures
        r == contains(ascii_lowercase(hay@), needle@),
{
    let ghost low = ascii_lowercase(hay@);
    if needle.len() > hay.len() {
        assert forall|i: int| !occurs_at(low, needle@, i) by {}
        return false;
    }
    let mut i: usize = 0;
    let last = hay.len() - needle.len();
    while i <= last
        invariant
            last == hay@.len() - needle@.len(),
            needle@.len() <= hay@.len(),
            low == ascii_lowercase(hay@),
            low.len() == hay@.len(),
            0 <= i <= hay@.len() - needle@.len() + 1,
            forall|j: int| 0 <= j < i ==> !occurs_at(low, needle@, j),
        decreases hay.len() - i,
    {
        let mut k: usize = 0;
        let mut ok = true;
        while k < needle.len()
            invariant
                i + needle@.len() <= hay@.len(),
                hay@.len() == hay.len(),
                low == ascii_lowercase(hay@),
                low.len() == hay@.len(),
                0 <= k <= needle@.len(),
                ok ==> forall|j: int| 0 <= j < k ==> low[i + j] == needle@[j],
                !ok ==> !occurs_at(low, needle@, i as int),
            decreases needle.len() - k,
        {
            assert(i + k < hay@.len());
            if lower(hay[i + k]) != needle[k] {
                ok = false;
                assert(low[i + k as int] != needle@[k as int]);
            }
            k = k + 1;
        }
        if ok {
            assert(occurs_at(low, needle@, i as int));
            return true;
        }
        i = i + 1;
    }
    assert forall|j: int| !occurs_at(low, needle@, j) by {
        if 0 <= j < i {
        }
    }
    false
}

/// The lowercase hexadecimal digit for `d`.
pub open spec fn hex_digit(d: int) -> char {
    if d < 10 {
        (48 + d) as char
    } else {
        (87 + d) as char
    }
}

/// Two lowercase hexadecimal digits per byte, most significant first.
pub open spec fn hex_text(bytes: Seq<u8>) -> Seq<char>
    decreases bytes.len(),
{
    if bytes.len() == 0 {
        Seq::empty()
    } else {
        hex_text(bytes.drop_last()) + seq![
            hex_digit(bytes.last() as int / 16),
            hex_digit(bytes.last() as int % 16),
        ]
    }
}

/// The hexadecimal text of bytes is two lower-case digits per byte, in
/// order: the byte's high half then its low half, each written with
/// `0123456789abcdef`.
pub proof fn lemma_hex_text_digits(bytes: Seq<u8>)
    ensures
        hex_text(bytes).len() == 2 * bytes.len(),
        forall|i: int|
            0 <= i < bytes.len() ==> hex_text(bytes)[2 * i] == "0123456789abcdef"@[#[trigger] bytes[i]
                as int / 16] && hex_text(bytes)[2 * i + 1] == "0123456789abcdef"@[bytes[i] as int
                % 16],
    decreases bytes.len(),
{
    reveal_strlit("0123456789abcdef");
    if bytes.len() > 0 {
        let head = bytes.drop_last();
        lemma_hex_text_digits(head);
        let t = hex_text(bytes);
        assert forall|i: int| 0 <= i < bytes.len() implies t[2 * i] == "0123456789abcdef"@[
            #[trigger] bytes[i] as int / 16] && t[2 * i + 1] == "0123456789abcdef"@[bytes[i] as int
            % 16] by {
            let d1 = bytes[i] as int / 16;
            let d2 = bytes[i] as int % 16;
            if i < head.len() {
                assert(bytes[i] == head[i]);
                assert(t[2 * i] == hex_text(head)[2 * i]);
                assert(t[2 * i + 1] == hex_text(head)[2 * i + 1]);
            } else {
                assert(t[2 * i] == hex_digit(d1));
                assert(t[2 * i + 1] == hex_digit(d2));
            }
            assert(0 <= d1 < 16 && 0 <= d2 < 16);
            assert(hex_digit(d1) == "0123456789abcdef"@[d1] || i < head.len());
        }
    }
}

/// The one-character text of the hexadecimal digit `d`.
fn hex_digit_str(d: u8) -> (r: &'static str)
    requires
        d < 16,
    ensures
        r@ == seq![hex_digit(d as int)],
{
    proof {
        reveal_strlit("0");
        reveal_strlit("1");
        reveal_strlit("2");
        reveal_strlit("3");
        reveal_strlit("4");
        reveal_strlit("5");
        reveal_strlit("6");
        reveal_strlit("7");
        reveal_strlit("8");
        reveal_strlit("9");
        reveal_strlit("a");
        reveal_strlit("b");
        reveal_strlit("c");
        reveal_strlit("d");
        reveal_strlit("e");
        reveal_strlit("f");
    }
    let r = match d {
        0 => "0",
        1 => "1",
        2 => "2",
        3 => "3",
        4 => "4",
        5 => "5",
        6 => "6",
        7 => "7",
        8 => "8",
        9 => "9",
        10 => "a",
        11 => "b",
        12 => "c",
        13 => "d",
        14 => "e",
        _ => "f",
    };
    assert(r@ =~= seq![hex_digit(d as int)]);
    r
}

/// Lowercase hexadecimal text of `bytes`.
pub fn encode_hex(bytes: &[u8]) -> (r: String)
    ensures
        r@ == hex_text(bytes@),
        r@.len() == 2 * bytes@.len(),
{
    let mut out = String::new();
    let mut i: usize = 0;
    while i < bytes.len()
        invariant
            0 <= i <= bytes@.len(),
            out@ == hex_text(bytes@.take(i as int)),
            out@.len() == 2 * i,
        decreases bytes.len() - i,
    {
        let b = bytes[i];
        out.append(hex_digit_str(b / 16));
        out.append(hex_digit_str(b % 16));
        proof {
            assert(bytes@.take(i + 1).drop_last() =~= bytes@.take(i as int));
        }
        i = i + 1;
    }
    proof {
        assert(bytes@.take(i as int) =~= bytes@);
    }
    out
}

/// Decimal text of `n`, without leading zeros.
pub open spec fn decimal_text(n: nat) -> Seq<char>
    decreases n,
{
    if n < 10 {
        seq![(48 + n) as char]
    } else {
        decimal_text(n / 10) + seq![(48 + n % 10) as char]
    }
}

/// Decimal text of `n`, as `Display` prints it.
pub fn decimal_string(n: u64) -> (r: String)
    ensures
        r@ == decimal_text(n as nat),
    decreases n,
{
    if n < 10 {
        let r = String::from_str(hex_digit_str(n as u8));
        r
    } else {
        let mut r = decimal_string(n / 10);
        r.append(hex_digit_str((n % 10) as u8));
        r
    }
}

/// `s` begins with `p`.
pub open spec fn starts_with(s: Seq<char>, p: Seq<char>) -> bool {
    p.len() <= s.len() && s.subrange(0, p.len() as int) == p
}

/// `s` ends with `p`.
pub open spec fn ends_with(s: Seq<char>, p: Seq<char>) -> bool {
    p.len() <= s.len() && s.subrange(s.len() - p.len(), s.len() as int) == p
}

/// Whether `s` begins with `p`.
pub fn str_starts_with(s: &str, p: &str) -> (r: bool)
    ensures
        r == starts_with(s@, p@),
{
    let x = chars_of(s);
    let y = chars_of(p);
    if y.len() > x.len() {
        return false;
    }
    let found = occurs_at_exec(&x, &y, 0);
    proof {
        let head = x@.subrange(0, y@.len() as int);
        if found {
            assert(head =~= y@);
        } else if head == y@ {
            assert forall|k: int| 0 <= k < y@.len() implies x@[0 + k] == y@[k] by {
                assert(head[k] == x@[k]);
            }
        }
    }
    found
}

/// Whether `s` ends with `p`.
pub fn str_ends_with(s: &str, p: &str) -> (r: bool)
    ensures
        r == ends_with(s@, p@),
{
    let x = chars_of(s);
    let y = chars_of(p);
    if y.len() > x.len() {
        return false;
    }
    let start = x.len() - y.len();
    let found = occurs_at_exec(&x, &y, start);
    proof {
        let tail = x@.subrange(start as int, x@.len() as int);
        if found {
            assert(tail =~= y@);
        } else if tail == y@ {
            assert forall|k: int| 0 <= k < y@.len() implies x@[start + k] == y@[k] by {
                assert(tail[k] == x@[start + k]);
            }
        }
    }
    found
}

/// `String::push`: appends `c` to the end of `s`.
#[verifier::external_body]
pub fn push_char(s: &mut String, c: char)
    ensures
        final(s)@ == old(s)@.push(c),
{
    s.push(c);
}

} // verus!
