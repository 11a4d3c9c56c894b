//! Comparing strings.
//!
//! Strings are equal when they hold the same characters, and are ordered as
//! their UTF-8 encodings are ordered, byte by byte.

use vstd::prelude::*;
use vstd::utf8::encode_utf8;
use vstd::utf8::encode_utf8_decode_utf8;

verus! {

/// `a` comes before `b` in the lexicographic order of byte sequences: at the
/// first place where they differ `a` has the smaller byte, or `a` is a proper
/// prefix of `b`.
pub open spec fn bytes_below(a: Seq<u8>, b: Seq<u8>) -> bool {
    exists|k: int| #[trigger] agree_before(a, b, k) && (k == a.len() || a[k] < b[k]) && k < b.len()
}

/// `a` and `b` hold the same bytes at every place before `k`, and both are
/// at least `k` long.
pub open spec fn agree_before(a: Seq<u8>, b: Seq<u8>, k: int) -> bool {
    &&& 0 <= k <= a.len()
    &&& k <= b.len()
    &&& forall|j: int| 0 <= j < k ==> a[j] == b[j]
}

/// The order of strings: that of their UTF-8 encodings.
pub open spec fn text_below(a: Seq<char>, b: Seq<char>) -> bool {
    bytes_below(encode_utf8(a), encode_utf8(b))
}

/// Two strings with the same encoding hold the same characters.
pub proof fn lemma_encoding_tells_apart(a: Seq<char>, b: Seq<char>)
    ensures
        (encode_utf8(a) == encode_utf8(b)) == (a == b),
{
    encode_utf8_decode_utf8(a);
    encode_utf8_decode_utf8(b);
}

/// No byte sequence comes before itself, and of two none comes before the
/// other both ways.
pub proof fn lemma_bytes_below_asymmetric(a: Seq<u8>, b: Seq<u8>)
    ensures
        !(bytes_below(a, b) && bytes_below(b, a)),
        a == b ==> !bytes_below(a, b),
{
    if bytes_below(a, b) && bytes_below(b, a) {
        let k = choose|k: int| #[trigger]
            agree_before(a, b, k) && (k == a.len() || a[k] < b[k]) && k < b.len();
        let l = choose|l: int| #[trigger]
            agree_before(b, a, l) && (l == b.len() || b[l] < a[l]) && l < a.len();
        if k < l {
            assert(b[k] == a[k]);
        } else if l < k {
            assert(a[l] == b[l]);
        }
    }
    if a == b && bytes_below(a, b) {
        let k = choose|k: int| #[trigger]
            agree_before(a, b, k) && (k == a.len() || a[k] < b[k]) && k < b.len();
    }
}

/// Of two different byte sequences one comes before the other.
pub proof fn lemma_bytes_below_total(a: Seq<u8>, b: Seq<u8>)
    ensures
        a == b || bytes_below(a, b) || bytes_below(b, a),
{
    lemma_bytes_compare_from(a, b, 0);
}

proof fn lemma_bytes_compare_from(a: Seq<u8>, b: Seq<u8>, k: int)
    requires
        agree_before(a, b, k),
    ensures
        a == b || bytes_below(a, b) || bytes_below(b, a),
    decreases a.len() - k,
{
    if k == a.len() {
        if k == b.len() {
            assert(a =~= b);
        } else {
            assert(agree_before(a, b, k) && (k == a.len() || a[k] < b[k]) && k < b.len());
        }
    } else if k == b.len() {
        assert(agree_before(b, a, k)) by {
            assert forall|j: int| 0 <= j < k implies b[j] == a[j] by {
                assert(a[j] == b[j]);
            }
        }
        assert(agree_before(b, a, k) && (k == b.len() || b[k] < a[k]) && k < a.len());
    } else if a[k] < b[k] {
        assert(agree_before(a, b, k) && (k == a.len() || a[k] < b[k]) && k < b.len());
    } else if b[k] < a[k] {
        assert(agree_before(b, a, k)) by {
            assert forall|j: int| 0 <= j < k implies b[j] == a[j] by {
                assert(a[j] == b[j]);
            }
        }
        assert(agree_before(b, a, k) && (k == b.len() || b[k] < a[k]) && k < a.len());
    } else {
        assert(agree_before(a, b, k + 1)) by {
            assert forall|j: int| 0 <= j < k + 1 implies a[j] == b[j] by {
                if j < k {
                    assert(a[j] == b[j]);
                }
            }
        }
        lemma_bytes_compare_from(a, b, k + 1);
    }
}

/// What comes before something that comes before a third comes before the
/// third.
pub proof fn lemma_bytes_below_transitive(a: Seq<u8>, b: Seq<u8>, c: Seq<u8>)
    requires
        bytes_below(a, b),
        bytes_below(b, c),
    ensures
        bytes_below(a, c),
{
    let k = choose|k: int| #[trigger]
        agree_before(a, b, k) && (k == a.len() || a[k] < b[k]) && k < b.len();
    let l = choose|l: int| #[trigger]
        agree_before(b, c, l) && (l == b.len() || b[l] < c[l]) && l < c.len();
    let m = if k <= l { k } else { l };
    assert(agree_before(a, c, m)) by {
        assert forall|j: int| 0 <= j < m implies a[j] == c[j] by {
            assert(a[j] == b[j]);
            assert(b[j] == c[j]);
        }
    }
    if k < l {
        assert(b[k] == c[k]);
    } else if l < k {
        assert(a[l] == b[l]);
    }
    assert(agree_before(a, c, m) && (m == a.len() || a[m] < c[m]) && m < c.len());
}

/// The order of strings is total and transitive, and no string comes
/// before itself.
pub proof fn lemma_text_order(a: Seq<char>, b: Seq<char>, c: Seq<char>)
    ensures
        a == b || text_below(a, b) || text_below(b, a),
        !(text_below(a, b) && text_below(b, a)),
        !text_below(a, a),
        text_below(a, b) && text_below(b, c) ==> text_below(a, c),
{
    lemma_encoding_tells_apart(a, b);
    lemma_bytes_below_total(encode_utf8(a), encode_utf8(b));
    lemma_bytes_below_asymmetric(encode_utf8(a), encode_utf8(b));
    lemma_bytes_below_asymmetric(encode_utf8(a), encode_utf8(a));
    if text_below(a, b) && text_below(b, c) {
        lemma_bytes_below_transitive(encode_utf8(a), encode_utf8(b), encode_utf8(c));
    }
}

/// Whether two byte strings are the same.
pub fn bytes_equal(a: &[u8], b: &[u8]) -> (r: bool)
    ensures
        r == (a@ == b@),
{
    if a.len() != b.len() {
        return false;
    }
    let mut i: usize = 0;
    while i < a.len()
        invariant
            a@.len() == b@.len(),
            i <= a@.len(),
            forall|j: int| 0 <= j < i ==> a@[j] == b@[j],
        decreases a@.len() - i,
    {
        if a[i] != b[i] {
            return false;
        }
        i += 1;
    }
    assert(a@ =~= b@);
    true
}

/// Whether `a` comes before `b`, byte by byte.
pub fn bytes_less(a: &[u8], b: &[u8]) -> (r: bool)
    ensures
        r == bytes_below(a@, b@),
{
    let mut i: usize = 0;
    while i < a.len() && i < b.len()
        invariant
            agree_before(a@, b@, i as int),
        decreases a@.len() - i,
    {
        if a[i] < b[i] {
            return true;
        }
        if a[i] > b[i] {
            proof {
                lemma_first_difference(a@, b@, i as int);
            }
            return false;
        }
        i += 1;
    }
    proof {
        if i < b.len() {
            assert(agree_before(a@, b@, i as int));
        } else {
            lemma_first_difference(a@, b@, i as int);
        }
    }
    i < b.len()
}

/// Where `a` and `b` agree before `k`, and at `k` either `b` ends or `a`
/// holds the larger byte, `a` does not come before `b`.
proof fn lemma_first_difference(a: Seq<u8>, b: Seq<u8>, k: int)
    requires
        agree_before(a, b, k),
        k == b.len() || (k < a.len() && a[k] > b[k]),
    ensures
        !bytes_below(a, b),
{
    if bytes_below(a, b) {
        let l = choose|l: int| #[trigger]
            agree_before(a, b, l) && (l == a.len() || a[l] < b[l]) && l < b.len();
        if l < k {
            assert(a[l] == b[l]);
        } else if k < l {
            assert(a[k] == b[k]);
        }
    }
}

/// Whether two strings hold the same characters.
pub fn str_equal(a: &str, b: &str) -> (r: bool)
    ensures
        r == (a@ == b@),
{
    proof {
        lemma_encoding_tells_apart(a@, b@);
    }
    bytes_equal(a.as_bytes(), b.as_bytes())
}

/// Whether `a` comes before `b` in the order of strings.
pub fn str_less(a: &str, b: &str) -> (r: bool)
    ensures
        r == text_below(a@, b@),
{
    bytes_less(a.as_bytes(), b.as_bytes())
}

/// The character of a decimal digit.
pub open spec fn digit_char(d: int) -> char {
    if d == 0 {
        '0'
    } else if d == 1 {
        '1'
    } else if d == 2 {
        '2'
    } else if d == 3 {
        '3'
    } else if d == 4 {
        '4'
    } else if d == 5 {
        '5'
    } else if d == 6 {
        '6'
    } else if d == 7 {
        '7'
    } else if d == 8 {
        '8'
    } else {
        '9'
    }
}

/// The decimal digits of a natural number, most significant first, without
/// leading zeros.
pub open spec fn digits(n: nat) -> Seq<char>
    decreases n,
{
    if n < 10 {
        seq![digit_char(n as int)]
    } else {
        digits(n / 10).push(digit_char((n % 10) as int))
    }
}

/// A number as it is printed: its digits, after a minus sign if it is negative.
pub open spec fn decimal_text(n: int) -> Seq<char> {
    if n < 0 {
        seq!['-'] + digits((-n) as nat)
    } else {
        digits(n as nat)
    }
}

fn digit_str(d: u32) -> (s: &'static str)
    requires
        d < 10,
    ensures
        s@ == seq![digit_char(d as int)],
{
    proof {
        reveal_strlit("0");
        reveal_strlit("1");
        reveal_strlit("2");
        reveal_strlit("3");
        reveal_strlit("4");
        reveal_strlit("5");
        reveal_strlit("6");
        reveal_strlit("7");
        reveal_strlit("8");
        reveal_strlit("9");
    }
    let s = if d == 0 {
        "0"
    } else if d == 1 {
        "1"
    } else if d == 2 {
        "2"
    } else if d == 3 {
        "3"
    } else if d == 4 {
        "4"
    } else if d == 5 {
        "5"
    } else if d == 6 {
        "6"
    } else if d == 7 {
        "7"
    } else if d == 8 {
        "8"
    } else {
        "9"
    };
    assert(s@ =~= seq![digit_char(d as int)]);
    s
}

fn natural(n: u32) -> (s: String)
    ensures
        s@ == digits(n as nat),
    decreases n,
{
    if n < 10 {
        String::from_str(digit_str(n))
    } else {
        let head = natural(n / 10);
        let s = head.concat(digit_str(n % 10));
        assert(s@ =~= digits(n as nat));
        s
    }
}

/// Prints a number in decimal.
pub fn decimal(n: i32) -> (s: String)
    ensures
        s@ == decimal_text(n as int),
{
    if n < 0 {
        proof {
            reveal_strlit("-");
        }
        let abs: u32 = if n == i32::MIN { 0x8000_0000 } else { (-n) as u32 };
        let s = String::from_str("-").concat(natural(abs).as_str());
        assert(s@ =~= decimal_text(n as int));
        s
    } else {
        natural(n as u32)
    }
}

} // verus!
