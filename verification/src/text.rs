//! Character-level text helpers shared by the parser and the serializer:
//! whitespace trimming, separator counting and splitting, and the reading
//! and rendering of base-10 signed integers.
use vstd::prelude::*;
use vstd::string::*;

verus! {

/// The whitespace characters that trimming removes: the Unicode
/// white-space set, as std's `char::is_whitespace` recognizes it.
pub open spec fn is_ws(c: char) -> bool {
    ||| c == '\u{0009}'
    ||| c == '\u{000A}'
    ||| c == '\u{000B}'
    ||| c == '\u{000C}'
    ||| c == '\u{000D}'
    ||| c == ' '
    ||| c == '\u{0085}'
    ||| c == '\u{00A0}'
    ||| c == '\u{1680}'
    ||| c == '\u{2000}'
    ||| c == '\u{2001}'
    ||| c == '\u{2002}'
    ||| c == '\u{2003}'
    ||| c == '\u{2004}'
    ||| c == '\u{2005}'
    ||| c == '\u{2006}'
    ||| c == '\u{2007}'
    ||| c == '\u{2008}'
    ||| c == '\u{2009}'
    ||| c == '\u{200A}'
    ||| c == '\u{2028}'
    ||| c == '\u{2029}'
    ||| c == '\u{202F}'
    ||| c == '\u{205F}'
    ||| c == '\u{3000}'
}

pub open spec fn trim_front(s: Seq<char>) -> Seq<char>
    decreases s.len(),
{
    if s.len() == 0 {
        s
    } else if is_ws(s[0]) {
        trim_front(s.drop_first())
    } else {
        s
    }
}

pub open spec fn trim_back(s: Seq<char>) -> Seq<char>
    decreases s.len(),
{
    if s.len() == 0 {
        s
    } else if is_ws(s.last()) {
        trim_back(s.drop_last())
    } else {
        s
    }
}

/// The text with surrounding whitespace removed.
pub open spec fn trim_spec(s: Seq<char>) -> Seq<char> {
    trim_back(trim_front(s))
}

pub open spec fn count_char(s: Seq<char>, c: char) -> int
    decreases s.len(),
{
    if s.len() == 0 {
        0
    } else {
        (if s[0] == c { 1int } else { 0int }) + count_char(s.drop_first(), c)
    }
}

/// Index of the first occurrence of `c` in `s`, or `s.len()` if absent.
pub open spec fn find_char(s: Seq<char>, c: char) -> int
    decreases s.len(),
{
    if s.len() == 0 {
        0
    } else if s[0] == c {
        0
    } else {
        1 + find_char(s.drop_first(), c)
    }
}

pub proof fn lemma_find_char(s: Seq<char>, c: char)
    ensures
        0 <= find_char(s, c) <= s.len(),
        find_char(s, c) < s.len() ==> s[find_char(s, c)] == c,
        forall|j: int| 0 <= j < find_char(s, c) ==> s[j] != c,
        (find_char(s, c) == s.len()) <==> count_char(s, c) == 0,
    decreases s.len(),
{
    if s.len() > 0 {
        lemma_count_char_nonneg(s.drop_first(), c);
    }
    if s.len() > 0 && s[0] != c {
        lemma_find_char(s.drop_first(), c);
        let fd = find_char(s.drop_first(), c);
        if fd < s.drop_first().len() {
            assert(s[1 + fd] == s.drop_first()[fd]);
        }
        assert forall|j: int| 0 <= j < find_char(s, c) implies s[j] != c by {
            if j > 0 {
                assert(s.drop_first()[j - 1] == s[j]);
            }
        }
    }
}

pub proof fn lemma_count_char_nonneg(s: Seq<char>, c: char)
    ensures
        count_char(s, c) >= 0,
    decreases s.len(),
{
    if s.len() > 0 {
        lemma_count_char_nonneg(s.drop_first(), c);
    }
}

pub proof fn lemma_count_char_zero(s: Seq<char>, c: char)
    ensures
        (count_char(s, c) == 0) <==> (forall|j: int| 0 <= j < s.len() ==> s[j] != c),
    decreases s.len(),
{
    if s.len() > 0 {
        lemma_count_char_zero(s.drop_first(), c);
        lemma_count_char_nonneg(s.drop_first(), c);
        if count_char(s, c) == 0 {
            assert(s[0] != c);
            assert forall|j: int| 0 <= j < s.len() implies s[j] != c by {
                if j > 0 {
                    assert(s.drop_first()[j - 1] == s[j]);
                }
            }
        } else {
            if s[0] != c {
                let j = choose|j: int| 0 <= j < s.drop_first().len() && s.drop_first()[j] == c;
                assert(s[j + 1] == c);
            }
        }
    }
}

/// Split on every occurrence of `sep`; always at least one part.
pub open spec fn split_char(s: Seq<char>, sep: char) -> Seq<Seq<char>>
    decreases s.len(),
{
    if count_char(s, sep) == 0 {
        seq![s]
    } else {
        proof {
            lemma_find_char(s, sep);
        }
        seq![s.subrange(0, find_char(s, sep))] + split_char(
            s.subrange(find_char(s, sep) + 1, s.len() as int),
            sep,
        )
    }
}

pub proof fn lemma_split_char_len(s: Seq<char>, sep: char)
    ensures
        split_char(s, sep).len() >= 1,
    decreases s.len(),
{
    if count_char(s, sep) != 0 {
        lemma_find_char(s, sep);
        lemma_split_char_len(s.subrange(find_char(s, sep) + 1, s.len() as int), sep);
    }
}

pub open spec fn digit_val(c: char) -> int {
    match c {
        '0' => 0,
        '1' => 1,
        '2' => 2,
        '3' => 3,
        '4' => 4,
        '5' => 5,
        '6' => 6,
        '7' => 7,
        '8' => 8,
        '9' => 9,
        _ => 10,
    }
}

pub open spec fn is_digit(c: char) -> bool {
    digit_val(c) < 10
}

pub open spec fn all_digits(s: Seq<char>) -> bool {
    forall|i: int| 0 <= i < s.len() ==> is_digit(#[trigger] s[i])
}

/// Value of an unsigned digit string, read left to right.
pub open spec fn digits_val(s: Seq<char>) -> int
    decreases s.len(),
{
    if s.len() == 0 {
        0
    } else {
        digits_val(s.drop_last()) * 10 + digit_val(s.last())
    }
}

pub const I64_MAX_MAG: u64 = 9223372036854775807;

pub const I64_MIN_MAG: u64 = 9223372036854775808;

pub const I64_MAG_DIV10: u64 = 922337203685477580;

/// A base-10 signed integer literal: an optional `-`, then one or more
/// digits, whose value fits in a 64-bit signed integer. No leading `+`.
pub open spec fn is_int_lit(s: Seq<char>) -> bool {
    if s.len() > 0 && s[0] == '-' {
        let d = s.drop_first();
        d.len() > 0 && all_digits(d) && digits_val(d) <= I64_MIN_MAG
    } else {
        s.len() > 0 && all_digits(s) && digits_val(s) <= I64_MAX_MAG
    }
}

pub open spec fn int_lit_val(s: Seq<char>) -> int {
    if s.len() > 0 && s[0] == '-' {
        -digits_val(s.drop_first())
    } else {
        digits_val(s)
    }
}

pub proof fn lemma_digits_val_bounds(s: Seq<char>)
    requires
        all_digits(s),
    ensures
        digits_val(s) >= 0,
        s.len() > 0 ==> digits_val(s) >= digit_val(s[0]),
    decreases s.len(),
{
    if s.len() > 0 {
        assert(forall|i: int| 0 <= i < s.drop_last().len() ==> is_digit(#[trigger] s.drop_last()[i]));
        lemma_digits_val_bounds(s.drop_last());
        if s.len() == 1 {
            assert(s.drop_last().len() == 0);
        } else {
            assert(s.drop_last()[0] == s[0]);
        }
    }
}

/// A digit string's value never drops when more digits are appended.
pub proof fn lemma_digits_val_prefix(s: Seq<char>, k: int)
    requires
        all_digits(s),
        0 <= k <= s.len(),
    ensures
        digits_val(s.subrange(0, k)) <= digits_val(s),
    decreases s.len() - k,
{
    if k < s.len() {
        lemma_digits_val_prefix(s, k + 1);
        let p = s.subrange(0, k + 1);
        assert(p.drop_last() =~= s.subrange(0, k));
        assert(forall|i: int| 0 <= i < p.len() ==> is_digit(#[trigger] p[i]));
        lemma_digits_val_bounds(s.subrange(0, k));
        assert(digits_val(p) == digits_val(s.subrange(0, k)) * 10 + digit_val(p.last()));
        assert(digits_val(s.subrange(0, k)) * 10 >= digits_val(s.subrange(0, k)));
    } else {
        assert(s.subrange(0, k) =~= s);
    }
}

pub open spec fn digit_char(d: int) -> char {
    if d == 0 {
        '0'
    } else if d == 1 {
        '1'
    } else if d == 2 {
        '2'
    } else if d == 3 {
        '3'
    } else if d == 4 {
        '4'
    } else if d == 5 {
        '5'
    } else if d == 6 {
        '6'
    } else if d == 7 {
        '7'
    } else if d == 8 {
        '8'
    } else {
        '9'
    }
}

/// Decimal digits of a nonnegative number, most significant first.
pub open spec fn digits_of(m: int) -> Seq<char>
    decreases m,
{
    if m < 10 {
        seq![digit_char(m)]
    } else {
        digits_of(m / 10).push(digit_char(m % 10))
    }
}

/// Canonical text of a signed integer.
pub open spec fn render_int(n: int) -> Seq<char> {
    if n < 0 {
        seq!['-'] + digits_of(-n)
    } else {
        digits_of(n)
    }
}

pub proof fn lemma_digits_of_digits(m: int)
    requires
        m >= 0,
    ensures
        all_digits(digits_of(m)),
        digits_of(m).len() >= 1,
        digits_val(digits_of(m)) == m,
        digit_val(digits_of(m)[0]) != 10,
    decreases m,
{
    if m < 10 {
        assert(digits_of(m) == seq![digit_char(m)]);
        assert(seq![digit_char(m)].drop_last() =~= Seq::<char>::empty());
        assert(seq![digit_char(m)].last() == digit_char(m));
        assert(digits_val(digits_of(m)) == digits_val(Seq::<char>::empty()) * 10 + digit_val(digit_char(m)));
    } else {
        lemma_digits_of_digits(m / 10);
        let d = digits_of(m);
        assert(d == digits_of(m / 10).push(digit_char(m % 10)));
        assert(d.drop_last() =~= digits_of(m / 10));
        assert(d.last() == digit_char(m % 10));
        assert(digits_val(d) == (m / 10) * 10 + (m % 10));
        assert(forall|i: int| 0 <= i < d.len() - 1 ==> d[i] == digits_of(m / 10)[i]);
        assert(d[0] == digits_of(m / 10)[0]);
    }
}

} // verus!
// Executable counterparts, each verified against the spec functions above.
use vstd::prelude::*;

verus! {

/// Relies on std's `String::push`: appends the given character to the
/// end of the string.
pub assume_specification[ std::string::String::push ](s: &mut std::string::String, c: char)
    ensures
        final(s)@ == old(s)@.push(c),
;

pub fn str_to_chars(s: &str) -> (r: Vec<char>)
    ensures
        r@ == s@,
{
    let n = s.unicode_len();
    let mut r: Vec<char> = Vec::new();
    let mut i: usize = 0;
    while i < n
        invariant
            i <= n,
            n == s@.len(),
            r@ == s@.subrange(0, i as int),
        decreases n - i,
    {
        r.push(s.get_char(i));
        i = i + 1;
        proof {
            assert(r@ =~= s@.subrange(0, i as int));
        }
    }
    proof {
        assert(s@.subrange(0, n as int) =~= s@);
    }
    r
}

pub fn chars_to_string(cs: &Vec<char>) -> (r: String)
    ensures
        r@ == cs@,
{
    let mut r = String::new();
    let mut i: usize = 0;
    while i < cs.len()
        invariant
            i <= cs.len(),
            r@ == cs@.subrange(0, i as int),
        decreases cs.len() - i,
    {
        r.push(cs[i]);
        i = i + 1;
        proof {
            assert(r@ =~= cs@.subrange(0, i as int));
        }
    }
    proof {
        assert(cs@.subrange(0, cs@.len() as int) =~= cs@);
    }
    r
}

pub fn push_all(out: &mut Vec<char>, piece: &Vec<char>)
    ensures
        final(out)@ == old(out)@ + piece@,
{
    let mut i: usize = 0;
    while i < piece.len()
        invariant
            i <= piece.len(),
            out@ == old(out)@ + piece@.subrange(0, i as int),
        decreases piece.len() - i,
    {
        out.push(piece[i]);
        i = i + 1;
        proof {
            assert(old(out)@ + piece@.subrange(0, i as int) =~= (old(out)@ + piece@.subrange(0, i - 1)).push(piece@[i - 1]));
        }
    }
    proof {
        assert(old(out)@ + piece@.subrange(0, piece@.len() as int) =~= old(out)@ + piece@);
    }
}

pub fn sub_chars(s: &Vec<char>, lo: usize, hi: usize) -> (r: Vec<char>)
    requires
        lo <= hi <= s@.len(),
    ensures
        r@ == s@.subrange(lo as int, hi as int),
{
    let mut r: Vec<char> = Vec::new();
    let mut i: usize = lo;
    while i < hi
        invariant
            lo <= i <= hi <= s@.len(),
            r@ == s@.subrange(lo as int, i as int),
        decreases hi - i,
    {
        r.push(s[i]);
        i = i + 1;
        proof {
            assert(r@ =~= s@.subrange(lo as int, i as int));
        }
    }
    r
}

pub fn ws_char(c: char) -> (r: bool)
    ensures
        r == is_ws(c),
{
    c == '\u{0009}' || c == '\u{000A}' || c == '\u{000B}' || c == '\u{000C}'
        || c == '\u{000D}' || c == ' ' || c == '\u{0085}' || c == '\u{00A0}'
        || c == '\u{1680}' || c == '\u{2000}' || c == '\u{2001}' || c == '\u{2002}'
        || c == '\u{2003}' || c == '\u{2004}' || c == '\u{2005}' || c == '\u{2006}'
        || c == '\u{2007}' || c == '\u{2008}' || c == '\u{2009}' || c == '\u{200A}'
        || c == '\u{2028}' || c == '\u{2029}' || c == '\u{202F}' || c == '\u{205F}'
        || c == '\u{3000}'
}

pub fn trim_chars(s: &Vec<char>) -> (r: Vec<char>)
    ensures
        r@ == trim_spec(s@),
{
    let n = s.len();
    proof {
        assert(s@.subrange(0, n as int) =~= s@);
    }
    let mut lo: usize = 0;
    while lo < n && ws_char(s[lo])
        invariant
            lo <= n,
            n == s@.len(),
            trim_front(s@) == trim_front(s@.subrange(lo as int, n as int)),
        decreases n - lo,
    {
        proof {
            assert(s@.subrange(lo as int, n as int).drop_first() =~= s@.subrange(lo + 1, n as int));
        }
        lo = lo + 1;
    }
    proof {
        assert(trim_front(s@) == s@.subrange(lo as int, n as int));
    }
    let mut hi: usize = n;
    while hi > lo && ws_char(s[hi - 1])
        invariant
            lo <= hi <= n,
            n == s@.len(),
            trim_back(s@.subrange(lo as int, n as int)) == trim_back(s@.subrange(lo as int, hi as int)),
        decreases hi,
    {
        proof {
            assert(s@.subrange(lo as int, hi as int).drop_last() =~= s@.subrange(lo as int, hi - 1));
        }
        hi = hi - 1;
    }
    proof {
        assert(trim_back(s@.subrange(lo as int, hi as int)) == s@.subrange(lo as int, hi as int));
    }
    let mut r: Vec<char> = Vec::new();
    let mut i: usize = lo;
    while i < hi
        invariant
            lo <= i <= hi <= n,
            n == s@.len(),
            r@ == s@.subrange(lo as int, i as int),
        decreases hi - i,
    {
        r.push(s[i]);
        i = i + 1;
        proof {
            assert(r@ =~= s@.subrange(lo as int, i as int));
        }
    }
    r
}

/// One pass over `s`: how many times `c` occurs, and the first index
/// holding it (`s.len()` if it does not occur).
pub fn scan_char(s: &Vec<char>, c: char) -> (r: (usize, usize))
    ensures
        r.0 as int == count_char(s@, c),
        r.1 as int == find_char(s@, c),
{
    let n = s.len();
    proof {
        assert(s@.subrange(0, n as int) =~= s@);
    }
    let mut cnt: usize = 0;
    let mut first: usize = n;
    let mut i: usize = 0;
    while i < n
        invariant
            i <= n,
            n == s@.len(),
            cnt <= i,
            first <= n,
            count_char(s@, c) == cnt + count_char(s@.subrange(i as int, n as int), c),
            first == n ==> forall|j: int| 0 <= j < i ==> s@[j] != c,
            first < n ==> first < i && s@[first as int] == c && forall|j: int| 0 <= j < first ==> s@[j] != c,
        decreases n - i,
    {
        proof {
            assert(s@.subrange(i as int, n as int).drop_first() =~= s@.subrange(i + 1, n as int));
            assert(s@.subrange(i as int, n as int)[0] == s@[i as int]);
        }
        if s[i] == c {
            cnt = cnt + 1;
            if first == n {
                first = i;
            }
        }
        i = i + 1;
    }
    proof {
        assert(s@.subrange(n as int, n as int) =~= Seq::<char>::empty());
        lemma_find_char(s@, c);
        lemma_count_char_zero(s@, c);
        if first < n {
            let f = find_char(s@, c);
            if f < first {
                assert(s@[f] != c);
            }
            if f > first {
                assert(s@[first as int] != c);
            }
            assert(f == first as int);
        } else {
            assert(forall|j: int| 0 <= j < s@.len() ==> s@[j] != c);
            assert(count_char(s@, c) == 0);
            assert(find_char(s@, c) == s@.len());
        }
    }
    (cnt, first)
}

pub fn split_chars(s: &Vec<char>, sep: char) -> (r: Vec<Vec<char>>)
    ensures
        r@.len() == split_char(s@, sep).len(),
        forall|i: int| 0 <= i < r@.len() ==> #[trigger] r@[i]@ == split_char(s@, sep)[i],
{
    let n = s.len();
    proof {
        assert(s@.subrange(0, n as int) =~= s@);
        assert(Seq::new(0, |q: int| Seq::<char>::empty()) =~= Seq::<Seq<char>>::empty());
    }
    let mut parts: Vec<Vec<char>> = Vec::new();
    let mut cur: Vec<char> = Vec::new();
    let mut j: usize = 0;
    let mut i: usize = 0;
    while i < n
        invariant
            j <= i <= n,
            n == s@.len(),
            cur@ == s@.subrange(j as int, i as int),
            forall|t: int| j <= t < i ==> s@[t] != sep,
            split_char(s@, sep) =~= Seq::new(parts@.len(), |q: int| parts@[q]@) + split_char(s@.subrange(j as int, n as int), sep),
        decreases n - i,
    {
        if s[i] == sep {
            proof {
                let suf = s@.subrange(j as int, n as int);
                lemma_find_char(suf, sep);
                lemma_count_char_zero(suf, sep);
                assert(suf[i - j] == sep);
                let f = find_char(suf, sep);
                if f < i - j {
                    assert(s@[j + f] != sep);
                    assert(suf[f] == s@[j + f]);
                }
                if f > i - j {
                    assert(suf[i - j] != sep);
                }
                assert(f == i - j);
                assert(suf.subrange(0, i - j) =~= s@.subrange(j as int, i as int));
                assert(suf.subrange(i - j + 1, suf.len() as int) =~= s@.subrange(i + 1, n as int));
            }
            parts.push(cur);
            cur = Vec::new();
            j = i + 1;
            proof {
                assert(cur@ =~= s@.subrange(j as int, j as int));
                assert(split_char(s@, sep) =~= Seq::new(parts@.len(), |q: int| parts@[q]@) + split_char(s@.subrange(j as int, n as int), sep));
            }
        } else {
            cur.push(s[i]);
            proof {
                assert(cur@ =~= s@.subrange(j as int, i + 1));
            }
        }
        i = i + 1;
    }
    proof {
        let suf = s@.subrange(j as int, n as int);
        lemma_count_char_zero(suf, sep);
        assert(forall|t: int| 0 <= t < suf.len() ==> suf[t] == s@[j + t]);
        assert(count_char(suf, sep) == 0);
        assert(split_char(suf, sep) == seq![suf]);
    }
    parts.push(cur);
    proof {
        assert(Seq::new(parts@.len(), |q: int| parts@[q]@) =~= Seq::new((parts@.len() - 1) as nat, |q: int| parts@[q]@) + seq![s@.subrange(j as int, n as int)]);
        assert(split_char(s@, sep) =~= Seq::new(parts@.len(), |q: int| parts@[q]@));
    }
    parts
}

fn digit_of(c: char) -> (r: u64)
    ensures
        r as int == digit_val(c),
{
    match c {
        '0' => 0,
        '1' => 1,
        '2' => 2,
        '3' => 3,
        '4' => 4,
        '5' => 5,
        '6' => 6,
        '7' => 7,
        '8' => 8,
        '9' => 9,
        _ => 10,
    }
}

/// Reads `s` as a base-10 signed 64-bit integer; `None` exactly when `s`
/// is not such a literal (including values out of range).
pub fn parse_int_chars(s: &Vec<char>) -> (r: Option<i64>)
    ensures
        r is Some <==> is_int_lit(s@),
        r matches Some(v) ==> v as int == int_lit_val(s@),
{
    let n = s.len();
    if n == 0 {
        return None;
    }
    let neg = s[0] == '-';
    let st: usize = if neg { 1 } else { 0 };
    if n == st {
        return None;
    }
    let limit: u64 = if neg { I64_MIN_MAG } else { I64_MAX_MAG };
    let ghost d: Seq<char> = if neg { s@.drop_first() } else { s@ };
    proof {
        assert(d =~= s@.subrange(st as int, n as int));
    }
    let mut acc: u64 = 0;
    let mut i: usize = st;
    while i < n
        invariant
            st <= i <= n,
            n == s@.len(),
            st == 1 ==> neg,
            neg ==> st == 1 && s@[0] == '-',
            !neg ==> st == 0 && (n > 0 && s@[0] != '-'),
            limit == if neg { I64_MIN_MAG } else { I64_MAX_MAG },
            d =~= s@.subrange(st as int, n as int),
            st < n,
            all_digits(s@.subrange(st as int, i as int)),
            acc as int == digits_val(s@.subrange(st as int, i as int)),
            acc <= limit,
        decreases n - i,
    {
        let dv = digit_of(s[i]);
        let ghost pre = s@.subrange(st as int, i as int);
        let ghost nxt = s@.subrange(st as int, i + 1);
        proof {
            assert(nxt.drop_last() =~= pre);
            assert(nxt.last() == s@[i as int]);
        }
        if dv == 10 {
            proof {
                assert(d[i - st] == s@[i as int]);
                assert(!is_digit(s@[i as int]));
                assert(!all_digits(d));
            }
            return None;
        }
        proof {
            assert(forall|t: int| 0 <= t < nxt.len() ==> is_digit(#[trigger] nxt[t]));
        }
        if acc > I64_MAG_DIV10 {
            proof {
                assert(digits_val(nxt) == acc * 10 + dv);
                assert(digits_val(nxt) > limit);
                if is_int_lit(s@) {
                    assert(s@.drop_first() =~= s@.subrange(1, n as int));
                    if neg {
                        assert(s@.len() > 0 && s@[0] == '-');
                        assert(digits_val(s@.drop_first()) <= I64_MIN_MAG);
                        assert(d == s@.drop_first());
                    } else {
                        assert(!(s@.len() > 0 && s@[0] == '-'));
                        assert(digits_val(s@) <= I64_MAX_MAG);
                        assert(d =~= s@);
                    }
                    assert(digits_val(d) <= limit);
                    lemma_digits_val_prefix(d, i + 1 - st);
                    assert(d.subrange(0, i + 1 - st) =~= nxt);
                    assert(false);
                }
            }
            return None;
        }
        acc = acc * 10;
        if dv > limit - acc {
            proof {
                assert(digits_val(nxt) > limit);
                if is_int_lit(s@) {
                    assert(s@.drop_first() =~= s@.subrange(1, n as int));
                    if neg {
                        assert(s@.len() > 0 && s@[0] == '-');
                        assert(digits_val(s@.drop_first()) <= I64_MIN_MAG);
                        assert(d == s@.drop_first());
                    } else {
                        assert(!(s@.len() > 0 && s@[0] == '-'));
                        assert(digits_val(s@) <= I64_MAX_MAG);
                        assert(d =~= s@);
                    }
                    assert(digits_val(d) <= limit);
                    lemma_digits_val_prefix(d, i + 1 - st);
                    assert(d.subrange(0, i + 1 - st) =~= nxt);
                    assert(false);
                }
            }
            return None;
        }
        acc = acc + dv;
        i = i + 1;
    }
    proof {
        assert(s@.subrange(st as int, n as int) =~= d);
        assert(all_digits(d) && digits_val(d) == acc as int && acc <= limit);
        assert(is_int_lit(s@));
    }
    if neg {
        if acc == I64_MIN_MAG {
            Some(i64::MIN)
        } else {
            Some(-(acc as i64))
        }
    } else {
        Some(acc as i64)
    }
}

/// Canonical decimal text of `n`.
pub fn int_to_chars(n: i64) -> (r: Vec<char>)
    ensures
        r@ == render_int(n as int),
{
    let neg = n < 0;
    let mut m: u64 = if n < 0 {
        if n == i64::MIN {
            I64_MIN_MAG
        } else {
            (-n) as u64
        }
    } else {
        n as u64
    };
    let ghost m0 = m as int;
    let mut out: Vec<char> = Vec::new();
    if m == 0 {
        out.push('0');
        proof {
            assert(out@ =~= digits_of(0));
        }
    } else {
        while m > 0
            invariant
                m >= 0,
                m > 0 ==> digits_of(m0) =~= digits_of(m as int) + out@,
                m == 0 ==> digits_of(m0) =~= out@,
            decreases m,
        {
            let dg = m % 10;
            let c = match dg {
                0u64 => '0',
                1u64 => '1',
                2u64 => '2',
                3u64 => '3',
                4u64 => '4',
                5u64 => '5',
                6u64 => '6',
                7u64 => '7',
                8u64 => '8',
                _ => '9',
            };
            proof {
                assert(c == digit_char(m as int % 10));
                if m >= 10 {
                    assert(digits_of(m as int) == digits_of(m as int / 10).push(digit_char(m as int % 10)));
                } else {
                    assert(digits_of(m as int) == seq![digit_char(m as int)]);
                }
            }
            out.insert(0, c);
            m = m / 10;
            proof {
                if m > 0 {
                    assert(digits_of(m0) =~= digits_of(m as int) + out@);
                } else {
                    assert(digits_of(m0) =~= out@);
                }
            }
        }
    }
    if neg {
        out.insert(0, '-');
        proof {
            assert(out@ =~= seq!['-'] + digits_of(m0));
        }
    }
    out
}

} // verus!
// Facts about trimming, counting and splitting that the round-trip
// argument leans on.
use vstd::prelude::*;

verus! {

pub proof fn lemma_trim_front_len(s: Seq<char>)
    ensures
        trim_front(s).len() <= s.len(),
        s.len() > 0 && is_ws(s[0]) ==> trim_front(s).len() < s.len(),
    decreases s.len(),
{
    if s.len() > 0 && is_ws(s[0]) {
        lemma_trim_front_len(s.drop_first());
    }
}

pub proof fn lemma_trim_back_len(s: Seq<char>)
    ensures
        trim_back(s).len() <= s.len(),
        s.len() > 0 && is_ws(s.last()) ==> trim_back(s).len() < s.len(),
    decreases s.len(),
{
    if s.len() > 0 && is_ws(s.last()) {
        lemma_trim_back_len(s.drop_last());
    }
}

/// A trim-fixed nonempty text neither starts nor ends in whitespace.
pub proof fn lemma_trim_fixed(s: Seq<char>)
    requires
        trim_spec(s) == s,
        s.len() > 0,
    ensures
        !is_ws(s[0]),
        !is_ws(s.last()),
        trim_front(s) == s,
        trim_back(s) == s,
{
    lemma_trim_front_len(s);
    lemma_trim_back_len(trim_front(s));
    if is_ws(s[0]) {
        assert(trim_spec(s).len() < s.len());
    }
    assert(trim_front(s) == s);
    if is_ws(s.last()) {
        assert(trim_back(s).len() < s.len());
    }
}

/// Appending one trailing space does not change the trimmed reading.
pub proof fn lemma_trim_snoc_space(k: Seq<char>)
    requires
        trim_spec(k) == k,
    ensures
        trim_spec(k.push(' ')) == k,
{
    let t = k.push(' ');
    assert(t.last() == ' ');
    assert(t.drop_last() =~= k);
    if k.len() == 0 {
        assert(t.drop_first() =~= Seq::<char>::empty());
        assert(trim_front(t) == trim_front(Seq::<char>::empty()));
        assert(trim_front(Seq::<char>::empty()) =~= Seq::<char>::empty());
        assert(trim_back(Seq::<char>::empty()) =~= Seq::<char>::empty());
    } else {
        lemma_trim_fixed(k);
        assert(t[0] == k[0]);
        assert(trim_front(t) == t);
        assert(trim_back(t) == trim_back(k));
    }
}

/// A leading space disappears under trimming.
pub proof fn lemma_trim_cons_space(r: Seq<char>)
    requires
        trim_spec(r) == r,
    ensures
        trim_spec(seq![' '] + r) == r,
{
    let t = seq![' '] + r;
    assert(t[0] == ' ');
    assert(t.drop_first() =~= r);
    if r.len() == 0 {
        assert(trim_front(t) =~= r);
    } else {
        lemma_trim_fixed(r);
        assert(trim_front(t) == trim_front(r));
        assert(trim_front(r) == r);
    }
}

pub proof fn lemma_count_char_append(a: Seq<char>, b: Seq<char>, c: char)
    ensures
        count_char(a + b, c) == count_char(a, c) + count_char(b, c),
    decreases a.len(),
{
    if a.len() == 0 {
        assert(a + b =~= b);
    } else {
        lemma_count_char_append(a.drop_first(), b, c);
        assert((a + b).drop_first() =~= a.drop_first() + b);
        assert((a + b)[0] == a[0]);
    }
}

/// Splitting off the first separator: a clean head, the separator, and
/// the rest.
pub proof fn lemma_split_char_cons(a: Seq<char>, b: Seq<char>, sep: char)
    requires
        count_char(a, sep) == 0,
    ensures
        split_char(a + seq![sep] + b, sep) == seq![a] + split_char(b, sep),
{
    let t = a + seq![sep] + b;
    lemma_count_char_zero(a, sep);
    lemma_count_char_append(a + seq![sep], b, sep);
    lemma_count_char_append(a, seq![sep], sep);
    assert((a + seq![sep] + b) =~= (a + seq![sep]) + b);
    assert(count_char(seq![sep], sep) == 1 + count_char(seq![sep].drop_first(), sep));
    assert(seq![sep].drop_first() =~= Seq::<char>::empty());
    assert(count_char(t, sep) == 1 + count_char(b, sep));
    lemma_count_char_nonneg(b, sep);
    lemma_find_char(t, sep);
    let f = find_char(t, sep);
    assert(t[a.len() as int] == sep);
    if f < a.len() {
        assert(t[f] == a[f]);
        assert(a[f] != sep);
    }
    if f > a.len() {
        assert(t[a.len() as int] != sep);
    }
    assert(f == a.len());
    assert(t.subrange(0, f) =~= a);
    assert(t.subrange(f + 1, t.len() as int) =~= b);
}

pub proof fn lemma_trim_spec_len(s: Seq<char>)
    ensures
        trim_spec(s).len() <= s.len(),
{
    lemma_trim_front_len(s);
    lemma_trim_back_len(trim_front(s));
}

/// Total length of a list of texts.
pub open spec fn sum_len(ss: Seq<Seq<char>>) -> int
    decreases ss.len(),
{
    if ss.len() == 0 {
        0
    } else {
        ss[0].len() + sum_len(ss.drop_first())
    }
}

pub proof fn lemma_sum_len_nonneg(ss: Seq<Seq<char>>)
    ensures
        sum_len(ss) >= 0,
    decreases ss.len(),
{
    if ss.len() > 0 {
        lemma_sum_len_nonneg(ss.drop_first());
    }
}

pub proof fn lemma_sum_len_snoc(ss: Seq<Seq<char>>)
    requires
        ss.len() > 0,
    ensures
        sum_len(ss) == sum_len(ss.drop_last()) + ss.last().len(),
    decreases ss.len(),
{
    if ss.len() == 1 {
        assert(ss.drop_last() =~= Seq::<Seq<char>>::empty());
        assert(ss.drop_first() =~= Seq::<Seq<char>>::empty());
        assert(ss[0] == ss.last());
    } else {
        lemma_sum_len_snoc(ss.drop_first());
        assert(ss.drop_first().drop_last() =~= ss.drop_last().drop_first());
        assert(ss.drop_first().last() == ss.last());
        assert(ss.drop_last()[0] == ss[0]);
    }
}

pub proof fn lemma_sum_len_ge(ss: Seq<Seq<char>>, i: int)
    requires
        0 <= i < ss.len(),
    ensures
        sum_len(ss) >= ss[i].len(),
    decreases ss.len(),
{
    lemma_sum_len_nonneg(ss.drop_first());
    if i > 0 {
        lemma_sum_len_ge(ss.drop_first(), i - 1);
        assert(ss.drop_first()[i - 1] == ss[i]);
    }
}

/// The parts of a split account for the whole text: their lengths plus
/// one per separator consumed.
pub proof fn lemma_split_char_sum(s: Seq<char>, sep: char)
    ensures
        sum_len(split_char(s, sep)) + split_char(s, sep).len() == s.len() + 1,
    decreases s.len(),
{
    if count_char(s, sep) == 0 {
        assert(split_char(s, sep) == seq![s]);
        assert(seq![s].drop_first() =~= Seq::<Seq<char>>::empty());
        assert(sum_len(Seq::<Seq<char>>::empty()) == 0);
        assert(sum_len(seq![s]) == s.len() + sum_len(Seq::<Seq<char>>::empty()));
    } else {
        lemma_find_char(s, sep);
        let f = find_char(s, sep);
        let rest = split_char(s.subrange(f + 1, s.len() as int), sep);
        lemma_split_char_sum(s.subrange(f + 1, s.len() as int), sep);
        let parts = split_char(s, sep);
        assert(parts == seq![s.subrange(0, f)] + rest);
        assert(parts.len() > 0);
        assert(parts[0] == s.subrange(0, f));
        assert(parts.drop_first() =~= rest);
        assert(sum_len(parts) == parts[0].len() + sum_len(parts.drop_first()));
        assert(sum_len(parts) == f + sum_len(rest));
    }
}

/// A text with no separator is one part.
pub proof fn lemma_split_char_whole(a: Seq<char>, sep: char)
    requires
        count_char(a, sep) == 0,
    ensures
        split_char(a, sep) == seq![a],
{
}

} // verus!
