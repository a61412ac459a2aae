//! Text groundwork for the record formats: decimal rendering and parsing
//! of numbers, lexicographic order on character sequences, and splitting
//! text at delimiter characters.

use vstd::prelude::*;

verus! {

// ---------------------------------------------------------------------
// Decimal digits
// ---------------------------------------------------------------------

/// The decimal digit characters, in order.
pub open spec fn digit_char(d: int) -> char
    recommends
        0 <= d < 10,
{
    if d == 0 {
        '0'
    } else if d == 1 {
        '1'
    } else if d == 2 {
        '2'
    } else if d == 3 {
        '3'
    } else if d == 4 {
        '4'
    } else if d == 5 {
        '5'
    } else if d == 6 {
        '6'
    } else if d == 7 {
        '7'
    } else if d == 8 {
        '8'
    } else {
        '9'
    }
}

pub open spec fn is_digit(c: char) -> bool {
    48 <= c as u32 <= 57
}

/// Numeric value of a digit character; 0 for anything else.
pub open spec fn digit_val(c: char) -> nat {
    if is_digit(c) {
        (c as u32 - 48) as nat
    } else {
        0
    }
}

/// The usual decimal rendering of `n`: no sign, no leading zeros
/// (except for `n == 0` itself).
pub open spec fn dec_digits(n: nat) -> Seq<char>
    decreases n,
{
    if n < 10 {
        seq![digit_char(n as int)]
    } else {
        dec_digits(n / 10).push(digit_char((n % 10) as int))
    }
}

/// Value of a digit string read as a decimal number.
pub open spec fn digits_val(s: Seq<char>) -> nat
    decreases s.len(),
{
    if s.len() == 0 {
        0
    } else {
        digits_val(s.drop_last()) * 10 + digit_val(s.last())
    }
}

pub open spec fn all_digits(s: Seq<char>) -> bool {
    forall|i: int| 0 <= i < s.len() ==> is_digit(#[trigger] s[i])
}

/// What reading a string as a `u32` yields: the decimal value when the
/// string is a non-empty run of digits whose value fits, and 0 otherwise
/// (the engine treats an unreadable count as 0 rather than failing).
pub open spec fn parse_u32_spec(s: Seq<char>) -> u32 {
    if s.len() > 0 && all_digits(s) && digits_val(s) <= u32::MAX {
        digits_val(s) as u32
    } else {
        0
    }
}

fn digit_str(d: u64) -> (r: &'static str)
    requires
        d < 10,
    ensures
        r@ =~= seq![digit_char(d as int)],
{
    proof {
        reveal_strlit("0");
        reveal_strlit("1");
        reveal_strlit("2");
        reveal_strlit("3");
        reveal_strlit("4");
        reveal_strlit("5");
        reveal_strlit("6");
        reveal_strlit("7");
        reveal_strlit("8");
        reveal_strlit("9");
    }
    match d {
        0 => "0",
        1 => "1",
        2 => "2",
        3 => "3",
        4 => "4",
        5 => "5",
        6 => "6",
        7 => "7",
        8 => "8",
        _ => "9",
    }
}

/// Render `n` in decimal.
pub fn u64_to_string(n: u64) -> (s: String)
    ensures
        s@ == dec_digits(n as nat),
    decreases n,
{
    if n < 10 {
        let s = String::from_str(digit_str(n));
        proof {
            assert(s@ =~= dec_digits(n as nat));
        }
        s
    } else {
        let mut s = u64_to_string(n / 10);
        s.append(digit_str(n % 10));
        proof {
            assert(s@ =~= dec_digits(n as nat));
        }
        s
    }
}

/// Appending another digit can only grow the value.
proof fn lemma_digits_val_grows(s: Seq<char>, c: char)
    ensures
        digits_val(s.push(c)) >= digits_val(s),
{
    assert(s.push(c).drop_last() =~= s);
}

/// Read a string as a `u32`, yielding 0 when it is not a plain decimal
/// number in range.
pub fn parse_u32(s: &str) -> (r: u32)
    ensures
        r == parse_u32_spec(s@),
{
    let len = s.unicode_len();
    if len == 0 {
        return 0;
    }
    let mut i: usize = 0;
    let mut acc: u64 = 0;
    let mut over: bool = false;
    while i < len
        invariant
            0 < len == s@.len(),
            0 <= i <= len,
            all_digits(s@.subrange(0, i as int)),
            acc <= u32::MAX as u64 + 1,
            !over ==> acc == digits_val(s@.subrange(0, i as int)),
            over <==> digits_val(s@.subrange(0, i as int)) > u32::MAX,
        decreases len - i,
    {
        let c = s.get_char(i);
        let cu = c as u32;
        if cu < 48 || cu > 57 {
            proof {
                assert(!is_digit(s@[i as int]));
            }
            return 0;
        }
        proof {
            assert(s@.subrange(0, i + 1).drop_last() =~= s@.subrange(0, i as int));
            assert(s@.subrange(0, i + 1).last() == s@[i as int]);
        }
        let d = (cu - 48) as u64;
        if over {
            proof {
                lemma_digits_val_grows(s@.subrange(0, i as int), s@[i as int]);
            }
        } else {
            acc = acc * 10 + d;
            if acc > u32::MAX as u64 {
                over = true;
                acc = u32::MAX as u64 + 1;
            }
        }
        i += 1;
    }
    proof {
        assert(s@.subrange(0, len as int) =~= s@);
    }
    if over {
        0
    } else {
        acc as u32
    }
}

// ---------------------------------------------------------------------
// Lexicographic order on character sequences
// ---------------------------------------------------------------------

/// `a` comes no later than `b` in code-point lexicographic order.
pub open spec fn chars_le(a: Seq<char>, b: Seq<char>) -> bool
    decreases a.len(),
{
    if a.len() == 0 {
        true
    } else if b.len() == 0 {
        false
    } else if a[0] != b[0] {
        (a[0] as u32) < (b[0] as u32)
    } else {
        chars_le(a.drop_first(), b.drop_first())
    }
}

/// The order is total: any two sequences compare one way or the other.
pub proof fn lemma_chars_le_total(a: Seq<char>, b: Seq<char>)
    ensures
        chars_le(a, b) || chars_le(b, a),
    decreases a.len(),
{
    if a.len() == 0 || b.len() == 0 {
    } else if a[0] != b[0] {
        vstd::utf8::char_u32_cast(a[0], a[0] as u32);
        vstd::utf8::char_u32_cast(b[0], b[0] as u32);
        assert((a[0] as u32) != (b[0] as u32));
    } else {
        lemma_chars_le_total(a.drop_first(), b.drop_first());
    }
}

/// The order is antisymmetric: sequences that compare both ways are equal.
pub proof fn lemma_chars_le_antisym(a: Seq<char>, b: Seq<char>)
    requires
        chars_le(a, b),
        chars_le(b, a),
    ensures
        a == b,
    decreases a.len(),
{
    if a.len() == 0 {
        assert(b.len() == 0);
        assert(a =~= b);
    } else {
        assert(b.len() > 0);
        assert(a[0] == b[0]);
        lemma_chars_le_antisym(a.drop_first(), b.drop_first());
        assert forall|i: int| 0 <= i < a.len() implies a[i] == b[i] by {
            if i > 0 {
                assert(a.drop_first()[i - 1] == b.drop_first()[i - 1]);
                assert(a[i] == a.drop_first()[i - 1]);
                assert(b[i] == b.drop_first()[i - 1]);
            }
        }
        assert(a =~= b);
    }
}

/// The order is transitive.
pub proof fn lemma_chars_le_trans(a: Seq<char>, b: Seq<char>, c: Seq<char>)
    requires
        chars_le(a, b),
        chars_le(b, c),
    ensures
        chars_le(a, c),
    decreases a.len(),
{
    if a.len() == 0 {
    } else {
        assert(b.len() > 0 && c.len() > 0);
        if a[0] == b[0] && b[0] == c[0] {
            lemma_chars_le_trans(a.drop_first(), b.drop_first(), c.drop_first());
        } else {
            vstd::utf8::char_u32_cast(a[0], a[0] as u32);
            vstd::utf8::char_u32_cast(b[0], b[0] as u32);
            vstd::utf8::char_u32_cast(c[0], c[0] as u32);
            assert(a[0] as u32 <= b[0] as u32);
            assert(b[0] as u32 <= c[0] as u32);
            if a[0] == c[0] {
                assert(a[0] == b[0] && b[0] == c[0]);
                assert(false);
            } else {
                assert(a[0] as u32 != c[0] as u32);
            }
        }
    }
}

/// Decide `chars_le` on string slices.
pub fn str_le(a: &str, b: &str) -> (r: bool)
    ensures
        r == chars_le(a@, b@),
{
    let alen = a.unicode_len();
    let blen = b.unicode_len();
    let mut i: usize = 0;
    proof {
        assert(a@.subrange(0, alen as int) =~= a@);
        assert(b@.subrange(0, blen as int) =~= b@);
    }
    loop
        invariant
            0 <= i <= alen == a@.len(),
            i <= blen == b@.len(),
            chars_le(a@, b@) == chars_le(
                a@.subrange(i as int, alen as int),
                b@.subrange(i as int, blen as int),
            ),
        decreases alen - i,
    {
        if i >= alen {
            proof {
                assert(a@.subrange(i as int, alen as int).len() == 0);
            }
            return true;
        }
        if i >= blen {
            proof {
                assert(b@.subrange(i as int, blen as int).len() == 0);
                assert(a@.subrange(i as int, alen as int).len() > 0);
            }
            return false;
        }
        let ca = a.get_char(i);
        let cb = b.get_char(i);
        proof {
            assert(a@.subrange(i as int, alen as int)[0] == a@[i as int]);
            assert(b@.subrange(i as int, blen as int)[0] == b@[i as int]);
        }
        if ca as u32 != cb as u32 {
            proof {
                assert(ca != cb);
            }
            return (ca as u32) < (cb as u32);
        }
        proof {
            assert(ca == cb);
            assert(a@.subrange(i as int, alen as int).drop_first() =~= a@.subrange(
                i + 1,
                alen as int,
            ));
            assert(b@.subrange(i as int, blen as int).drop_first() =~= b@.subrange(
                i + 1,
                blen as int,
            ));
        }
        i += 1;
    }
}

// ---------------------------------------------------------------------
// Finding and splitting
// ---------------------------------------------------------------------

/// Whitespace, for the built-in word-count tokenizer.
pub open spec fn is_ws(c: char) -> bool {
    c == ' ' || c == '\n' || c == '\t' || c == '\r'
}

/// Predicate for a single delimiter character.
pub open spec fn ch_eq(d: char) -> spec_fn(char) -> bool {
    |c: char| c == d
}

/// Predicate for whitespace.
pub open spec fn ws_p() -> spec_fn(char) -> bool {
    |c: char| is_ws(c)
}

/// Index of the first position at or after `i` whose character satisfies
/// `p`, or `s.len()` when there is none.
pub open spec fn find_if(s: Seq<char>, p: spec_fn(char) -> bool, i: int) -> int
    recommends
        0 <= i <= s.len(),
    decreases s.len() - i,
{
    if i < 0 || i >= s.len() {
        s.len() as int
    } else if p(s[i]) {
        i
    } else {
        find_if(s, p, i + 1)
    }
}

/// `find_if` stays in range, lands on a matching character, and skips
/// only non-matching ones.
pub proof fn lemma_find_if_bounds(s: Seq<char>, p: spec_fn(char) -> bool, i: int)
    requires
        0 <= i <= s.len(),
    ensures
        i <= find_if(s, p, i) <= s.len(),
        find_if(s, p, i) < s.len() ==> p(s[find_if(s, p, i)]),
        forall|m: int| i <= m < find_if(s, p, i) ==> !p(#[trigger] s[m]),
    decreases s.len() - i,
{
    if i < s.len() && !p(s[i]) {
        lemma_find_if_bounds(s, p, i + 1);
    }
}

/// `find_if` is pinned by a scan that saw no match before `k` and a match
/// (or the end) at `k`.
pub proof fn lemma_find_if_at(s: Seq<char>, p: spec_fn(char) -> bool, i: int, k: int)
    requires
        0 <= i <= k <= s.len(),
        forall|m: int| i <= m < k ==> !p(#[trigger] s[m]),
        k == s.len() || p(s[k]),
    ensures
        find_if(s, p, i) == k,
    decreases k - i,
{
    if i < k {
        lemma_find_if_at(s, p, i + 1, k);
    }
}

/// The pieces of `s` between occurrences of the delimiter `d`; one piece
/// more than there are delimiters, in order, each piece free of `d`.
pub open spec fn split_char(s: Seq<char>, d: char) -> Seq<Seq<char>>
    decreases s.len(),
    via split_char_decreases
{
    let j = find_if(s, ch_eq(d), 0);
    if j == s.len() {
        seq![s]
    } else {
        seq![s.subrange(0, j)] + split_char(s.subrange(j + 1, s.len() as int), d)
    }
}

#[via_fn]
proof fn split_char_decreases(s: Seq<char>, d: char) {
    lemma_find_if_bounds(s, ch_eq(d), 0);
}

/// The maximal runs of non-whitespace characters in `s`, in order.
pub open spec fn tokens(s: Seq<char>) -> Seq<Seq<char>>
    decreases s.len(),
    via tokens_decreases
{
    if s.len() == 0 {
        seq![]
    } else if is_ws(s[0]) {
        tokens(s.subrange(1, s.len() as int))
    } else {
        let j = find_if(s, ws_p(), 0);
        seq![s.subrange(0, j)] + tokens(s.subrange(j, s.len() as int))
    }
}

#[via_fn]
proof fn tokens_decreases(s: Seq<char>) {
    if s.len() > 0 && !is_ws(s[0]) {
        lemma_find_if_bounds(s, ws_p(), 0);
        assert(ws_p()(s[0]) == is_ws(s[0]));
    }
}

/// Split a string at every occurrence of `d`.
pub fn split_str(s: &str, d: char) -> (parts: Vec<String>)
    ensures
        parts.deep_view() == split_char(s@, d),
{
    let len = s.unicode_len();
    let mut parts: Vec<String> = Vec::new();
    let mut start: usize = 0;
    let mut i: usize = 0;
    proof {
        assert(s@.subrange(0, len as int) =~= s@);
        assert(parts.deep_view() =~= Seq::<Seq<char>>::empty());
        assert(parts.deep_view() + split_char(s@, d) =~= split_char(s@, d));
    }
    while i < len
        invariant
            0 <= start <= i <= len == s@.len(),
            forall|m: int| start <= m < i ==> #[trigger] s@[m] != d,
            split_char(s@, d) =~= parts.deep_view() + split_char(
                s@.subrange(start as int, len as int),
                d,
            ),
        decreases len - i,
    {
        let c = s.get_char(i);
        if c as u32 == d as u32 {
            proof {
                assert(c == d);
                let suf = s@.subrange(start as int, len as int);
                assert forall|m: int| 0 <= m < i - start implies !(ch_eq(d)(#[trigger] suf[m])) by {
                    assert(suf[m] == s@[start + m]);
                }
                assert(ch_eq(d)(suf[i - start]));
                lemma_find_if_at(suf, ch_eq(d), 0, i - start);
                assert(suf.subrange(0, i - start) =~= s@.subrange(start as int, i as int));
                assert(suf.subrange(i - start + 1, suf.len() as int) =~= s@.subrange(
                    i + 1,
                    len as int,
                ));
            }
            let piece = String::from_str(s.substring_char(start, i));
            parts.push(piece);
            start = i + 1;
        }
        i += 1;
    }
    proof {
        let suf = s@.subrange(start as int, len as int);
        assert forall|m: int| 0 <= m < suf.len() implies !(ch_eq(d)(#[trigger] suf[m])) by {
            assert(suf[m] == s@[start + m]);
        }
        lemma_find_if_at(suf, ch_eq(d), 0, suf.len() as int);
    }
    let piece = String::from_str(s.substring_char(start, len));
    parts.push(piece);
    proof {
        assert(parts.deep_view() =~= split_char(s@, d));
    }
    parts
}

/// The words of a string: its maximal runs of non-whitespace characters.
pub fn words(s: &str) -> (ws: Vec<String>)
    ensures
        ws.deep_view() == tokens(s@),
{
    let len = s.unicode_len();
    let mut ws: Vec<String> = Vec::new();
    let mut i: usize = 0;
    proof {
        assert(s@.subrange(0, len as int) =~= s@);
        assert(ws.deep_view() =~= Seq::<Seq<char>>::empty());
        assert(ws.deep_view() + tokens(s@) =~= tokens(s@));
    }
    while i < len
        invariant
            0 <= i <= len == s@.len(),
            tokens(s@) =~= ws.deep_view() + tokens(s@.subrange(i as int, len as int)),
        decreases len - i,
    {
        let c = s.get_char(i);
        if ws_char(c) {
            proof {
                let suf = s@.subrange(i as int, len as int);
                assert(suf[0] == s@[i as int]);
                assert(suf.subrange(1, suf.len() as int) =~= s@.subrange(i + 1, len as int));
            }
            i += 1;
        } else {
            let start = i;
            i += 1;
            while i < len && !ws_char(s.get_char(i))
                invariant
                    0 <= start < i <= len == s@.len(),
                    !is_ws(s@[start as int]),
                    forall|m: int| start <= m < i ==> !is_ws(#[trigger] s@[m]),
                decreases len - i,
            {
                i += 1;
            }
            proof {
                let suf = s@.subrange(start as int, len as int);
                assert(suf[0] == s@[start as int]);
                assert forall|m: int| 0 <= m < i - start implies !(ws_p()(#[trigger] suf[m])) by {
                    assert(suf[m] == s@[start + m]);
                }
                if i < len {
                    assert(ws_p()(suf[i - start]) == is_ws(s@[i as int]));
                }
                lemma_find_if_at(suf, ws_p(), 0, i - start);
                assert(suf.subrange(0, i - start) =~= s@.subrange(start as int, i as int));
                assert(suf.subrange(i - start, suf.len() as int) =~= s@.subrange(
                    i as int,
                    len as int,
                ));
            }
            let w = String::from_str(s.substring_char(start, i));
            ws.push(w);
        }
    }
    proof {
        assert(s@.subrange(i as int, len as int).len() == 0);
        assert(ws.deep_view() =~= tokens(s@));
    }
    ws
}

/// Whether `c` is whitespace.
pub fn ws_char(c: char) -> (r: bool)
    ensures
        r == is_ws(c),
{
    c == ' ' || c == '\n' || c == '\t' || c == '\r'
}

} // verus!
