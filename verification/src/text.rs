//! Strings as the rest of the library reads them: a `String` or `&str` is its
//! sequence of characters, and it is ordered by its UTF-8 bytes, which is the
//! order of `str` itself.

use crate::order::lemma_lex_strict_total;
use crate::order::lex_lt;
use crate::order::lex_witness;
use crate::order::strict_total;
use vstd::prelude::*;
use vstd::slice::slice_index_get;
use vstd::string::StringExecFns;
use vstd::utf8::encode_utf8;
use vstd::utf8::encode_utf8_decode_utf8;

verus! {

/// The UTF-8 bytes of a sequence of characters.
pub open spec fn utf8(s: Seq<char>) -> Seq<u8> {
    encode_utf8(s)
}

/// Two sequences of characters with the same UTF-8 bytes are the same.
pub proof fn lemma_utf8_injective(a: Seq<char>, b: Seq<char>)
    requires
        utf8(a) == utf8(b),
    ensures
        a == b,
{
    encode_utf8_decode_utf8(a);
    encode_utf8_decode_utf8(b);
}

/// Whether two strings hold the same characters.
pub fn str_equals(a: &str, b: &str) -> (same: bool)
    ensures
        same == (a@ == b@),
{
    let x = a.as_bytes();
    let y = b.as_bytes();
    if x.len() != y.len() {
        return false;
    }
    let n: usize = x.len();
    let mut i: usize = 0;
    while i < n
        invariant
            n == x@.len(),
            n == y@.len(),
            i <= n,
            x@ == utf8(a@),
            y@ == utf8(b@),
            forall|k: int| 0 <= k < i ==> x@[k] == y@[k],
        decreases n - i,
    {
        if *slice_index_get(x, i) != *slice_index_get(y, i) {
            return false;
        }
        i += 1;
    }
    proof {
        assert(x@ =~= y@);
        lemma_utf8_injective(a@, b@);
    }
    true
}

/// The order of bytes by their value.
pub open spec fn byte_order() -> spec_fn(u8, u8) -> bool {
    |x: u8, y: u8| x < y
}

/// `a` comes strictly before `b`: the UTF-8 bytes of `a` come before those of
/// `b` in lexicographic order.
pub open spec fn text_lt(a: Seq<char>, b: Seq<char>) -> bool {
    lex_lt(byte_order(), utf8(a), utf8(b))
}

/// [`text_lt`] as a relation.
pub open spec fn text_order() -> spec_fn(Seq<char>, Seq<char>) -> bool {
    |a: Seq<char>, b: Seq<char>| text_lt(a, b)
}

/// The order of strings is a strict total order.
pub proof fn lemma_text_order_strict_total()
    ensures
        strict_total(text_order()),
{
    let bytes = |a: Seq<u8>, b: Seq<u8>| lex_lt(byte_order(), a, b);
    assert(strict_total(byte_order()));
    lemma_lex_strict_total(byte_order());
    assert(strict_total(bytes));
    let order = text_order();
    assert forall|x: Seq<char>| !#[trigger] order(x, x) by {
        assert(!bytes(utf8(x), utf8(x)));
    }
    assert forall|x: Seq<char>, y: Seq<char>, z: Seq<char>| #[trigger] order(x, y)
        && #[trigger] order(y, z) implies order(x, z) by {
        assert(bytes(utf8(x), utf8(y)) && bytes(utf8(y), utf8(z)));
        assert(bytes(utf8(x), utf8(z)));
    }
    assert forall|x: Seq<char>, y: Seq<char>| x == y || #[trigger] order(x, y) || order(y, x) by {
        if utf8(x) == utf8(y) {
            lemma_utf8_injective(x, y);
        } else {
            assert(bytes(utf8(x), utf8(y)) || bytes(utf8(y), utf8(x)));
        }
    }
}

/// Whether `a` comes strictly before `b` in the order of strings.
pub fn str_less(a: &str, b: &str) -> (less: bool)
    ensures
        less == text_lt(a@, b@),
{
    let x = a.as_bytes();
    let y = b.as_bytes();
    let n: usize = if x.len() < y.len() {
        x.len()
    } else {
        y.len()
    };
    let mut i: usize = 0;
    while i < n
        invariant
            n <= x@.len(),
            n <= y@.len(),
            n == x@.len() || n == y@.len(),
            i <= n,
            x@ == utf8(a@),
            y@ == utf8(b@),
            forall|k: int| 0 <= k < i ==> x@[k] == y@[k],
        decreases n - i,
    {
        let p: u8 = *slice_index_get(x, i);
        let q: u8 = *slice_index_get(y, i);
        if p != q {
            proof {
                if p < q {
                    assert(lex_witness(byte_order(), x@, y@, i as int));
                } else {
                    assert forall|k: int| !#[trigger] lex_witness(byte_order(), x@, y@, k) by {
                        if lex_witness(byte_order(), x@, y@, k) {
                            if k < i {
                                assert(x@[k] == y@[k]);
                            } else if k > i {
                                assert(x@[i as int] == y@[i as int]);
                            }
                        }
                    }
                }
            }
            return p < q;
        }
        i += 1;
    }
    proof {
        if x@.len() < y@.len() {
            assert(lex_witness(byte_order(), x@, y@, n as int));
        } else {
            assert forall|k: int| !#[trigger] lex_witness(byte_order(), x@, y@, k) by {
                if lex_witness(byte_order(), x@, y@, k) {
                    if k < n {
                        assert(x@[k] == y@[k]);
                    }
                }
            }
        }
    }
    x.len() < y.len()
}

/// `s` starts with `prefix`: the UTF-8 bytes of `prefix` lead those of `s`.
pub open spec fn text_starts_with(s: Seq<char>, prefix: Seq<char>) -> bool {
    utf8(prefix).is_prefix_of(utf8(s))
}

/// Whether `s` starts with `prefix`.
pub fn str_starts_with(s: &str, prefix: &str) -> (starts: bool)
    ensures
        starts == text_starts_with(s@, prefix@),
{
    let x = s.as_bytes();
    let y = prefix.as_bytes();
    if y.len() > x.len() {
        return false;
    }
    let n: usize = y.len();
    let mut i: usize = 0;
    while i < n
        invariant
            n == y@.len(),
            n <= x@.len(),
            i <= n,
            x@ == utf8(s@),
            y@ == utf8(prefix@),
            forall|k: int| 0 <= k < i ==> x@[k] == y@[k],
        decreases n - i,
    {
        if *slice_index_get(x, i) != *slice_index_get(y, i) {
            assert(x@.subrange(0, n as int)[i as int] != y@[i as int]);
            return false;
        }
        i += 1;
    }
    assert(x@.subrange(0, n as int) =~= y@);
    true
}

/// `s` ends with `suffix`: the UTF-8 bytes of `suffix` close those of `s`.
pub open spec fn text_ends_with(s: Seq<char>, suffix: Seq<char>) -> bool {
    utf8(suffix).is_suffix_of(utf8(s))
}

/// The bytes of `part` stand in `whole` from place `at` on.
pub open spec fn stands_at(whole: Seq<u8>, part: Seq<u8>, at: int) -> bool {
    0 <= at && at + part.len() <= whole.len() && whole.subrange(at, at + part.len()) == part
}

/// `s` holds `part` somewhere: the UTF-8 bytes of `part` stand in those of
/// `s`.
pub open spec fn text_contains(s: Seq<char>, part: Seq<char>) -> bool {
    exists|at: int| #[trigger] stands_at(utf8(s), utf8(part), at)
}

/// Whether the bytes of `y` stand in `x` from place `at` on.
fn bytes_stand_at(x: &[u8], y: &[u8], at: usize) -> (stands: bool)
    requires
        at + y@.len() <= x@.len(),
    ensures
        stands == stands_at(x@, y@, at as int),
{
    let n: usize = y.len();
    let total: usize = x.len();
    let mut i: usize = 0;
    while i < n
        invariant
            n == y@.len(),
            total == x@.len(),
            at + n <= total,
            i <= n,
            forall|k: int| 0 <= k < i ==> x@[at + k] == y@[k],
        decreases n - i,
    {
        if *slice_index_get(x, at + i) != *slice_index_get(y, i) {
            assert(x@.subrange(at as int, at + n)[i as int] != y@[i as int]);
            return false;
        }
        i += 1;
    }
    assert(x@.subrange(at as int, at + n) =~= y@);
    true
}

/// Whether `s` ends with `suffix`.
pub fn str_ends_with(s: &str, suffix: &str) -> (ends: bool)
    ensures
        ends == text_ends_with(s@, suffix@),
{
    let x = s.as_bytes();
    let y = suffix.as_bytes();
    if y.len() > x.len() {
        return false;
    }
    bytes_stand_at(x, y, x.len() - y.len())
}

/// Whether `s` holds `part` somewhere.
pub fn str_contains(s: &str, part: &str) -> (holds: bool)
    ensures
        holds == text_contains(s@, part@),
{
    let x = s.as_bytes();
    let y = part.as_bytes();
    if y.len() > x.len() {
        assert forall|at: int| !#[trigger] stands_at(x@, y@, at) by {}
        return false;
    }
    if y.len() == 0 {
        assert(x@.subrange(0, 0) =~= y@);
        assert(stands_at(utf8(s@), utf8(part@), 0));
        return true;
    }
    let last: usize = x.len() - y.len();
    let mut at: usize = 0;
    while at <= last
        invariant
            last == x@.len() - y@.len(),
            last < usize::MAX,
            at <= last + 1,
            x@ == utf8(s@),
            y@ == utf8(part@),
            forall|k: int| 0 <= k < at ==> !#[trigger] stands_at(x@, y@, k),
        decreases last + 1 - at,
    {
        if bytes_stand_at(x, y, at) {
            return true;
        }
        at += 1;
    }
    assert forall|k: int| !#[trigger] stands_at(x@, y@, k) by {}
    false
}

/// The character of a digit below ten.
pub open spec fn digit_char(d: nat) -> char {
    if d == 0 {
        '0'
    } else if d == 1 {
        '1'
    } else if d == 2 {
        '2'
    } else if d == 3 {
        '3'
    } else if d == 4 {
        '4'
    } else if d == 5 {
        '5'
    } else if d == 6 {
        '6'
    } else if d == 7 {
        '7'
    } else if d == 8 {
        '8'
    } else {
        '9'
    }
}

/// A number written in decimal, without leading zeros.
pub open spec fn decimal(n: nat) -> Seq<char>
    decreases n,
{
    if n < 10 {
        seq![digit_char(n)]
    } else {
        decimal(n / 10).push(digit_char(n % 10))
    }
}

/// The text of a digit below ten.
fn digit_text(d: u32) -> (text: &'static str)
    requires
        d < 10,
    ensures
        text@ == seq![digit_char(d as nat)],
{
    proof {
        reveal_strlit("0");
        reveal_strlit("1");
        reveal_strlit("2");
        reveal_strlit("3");
        reveal_strlit("4");
        reveal_strlit("5");
        reveal_strlit("6");
        reveal_strlit("7");
        reveal_strlit("8");
        reveal_strlit("9");
    }
    let text = if d == 0 {
        "0"
    } else if d == 1 {
        "1"
    } else if d == 2 {
        "2"
    } else if d == 3 {
        "3"
    } else if d == 4 {
        "4"
    } else if d == 5 {
        "5"
    } else if d == 6 {
        "6"
    } else if d == 7 {
        "7"
    } else if d == 8 {
        "8"
    } else {
        "9"
    };
    assert(text@ =~= seq![digit_char(d as nat)]);
    text
}

/// A number written in decimal.
pub fn decimal_text(n: u32) -> (text: String)
    ensures
        text@ == decimal(n as nat),
    decreases n,
{
    if n < 10 {
        String::from_str(digit_text(n))
    } else {
        let mut text = decimal_text(n / 10);
        text.append(digit_text(n % 10));
        assert(text@ =~= decimal(n as nat));
        text
    }
}

} // verus!
