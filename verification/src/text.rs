//! Character-level helpers shared by the FEN, move and JSON code.
use vstd::prelude::*;
use vstd::string::*;

verus! {

/// Appends `c` to `s`; calls `String::push`, which the documentation says
/// appends the character to the end of the string.
#[verifier::external_body]
pub fn push_char(s: &mut String, c: char)
    ensures
        final(s)@ == old(s)@.push(c),
{
    s.push(c);
}

/// The characters of `s` as a vector, in order.
pub fn chars_of(s: &str) -> (r: Vec<char>)
    ensures
        r@ == s@,
{
    let n = s.unicode_len();
    let mut out: Vec<char> = Vec::new();
    let mut i: usize = 0;
    while i < n
        invariant
            n == s@.len(),
            i <= n,
            out@ == s@.subrange(0, i as int),
        decreases n - i,
    {
        let c = s.get_char(i);
        out.push(c);
        i = i + 1;
        assert(out@ =~= s@.subrange(0, i as int));
    }
    assert(out@ =~= s@);
    out
}


/// Unicode white space (the characters `char::is_whitespace` accepts).
pub open spec fn is_ws(c: char) -> bool {
    ||| '\t' <= c <= '\r'
    ||| c == ' '
    ||| c == '\u{85}'
    ||| c == '\u{A0}'
    ||| c == '\u{1680}'
    ||| '\u{2000}' <= c <= '\u{200A}'
    ||| c == '\u{2028}'
    ||| c == '\u{2029}'
    ||| c == '\u{202F}'
    ||| c == '\u{205F}'
    ||| c == '\u{3000}'
}

pub fn is_whitespace(c: char) -> (r: bool)
    ensures
        r == is_ws(c),
{
    ('\t' <= c && c <= '\r') || c == ' ' || c == '\u{85}' || c == '\u{A0}' || c == '\u{1680}' || ('\u{2000}'
        <= c && c <= '\u{200A}') || c == '\u{2028}' || c == '\u{2029}' || c == '\u{202F}' || c
        == '\u{205F}' || c == '\u{3000}'
}

/// The completed tokens of `s` and the token still being read, splitting at white space.
pub open spec fn ws_split(s: Seq<char>) -> (Seq<Seq<char>>, Seq<char>)
    decreases s.len(),
{
    if s.len() == 0 {
        (seq![], seq![])
    } else {
        let (toks, cur) = ws_split(s.drop_last());
        if is_ws(s.last()) {
            if cur.len() > 0 {
                (toks.push(cur), seq![])
            } else {
                (toks, seq![])
            }
        } else {
            (toks, cur.push(s.last()))
        }
    }
}

/// The maximal runs of non-white-space characters of `s`, in order (like `split_whitespace`).
pub open spec fn tokens(s: Seq<char>) -> Seq<Seq<char>> {
    let (toks, cur) = ws_split(s);
    if cur.len() > 0 {
        toks.push(cur)
    } else {
        toks
    }
}

/// The completed pieces of `s` and the piece still being read, splitting at `sep`.
pub open spec fn sep_split(s: Seq<char>, sep: char) -> (Seq<Seq<char>>, Seq<char>)
    decreases s.len(),
{
    if s.len() == 0 {
        (seq![], seq![])
    } else {
        let (parts, cur) = sep_split(s.drop_last(), sep);
        if s.last() == sep {
            (parts.push(cur), seq![])
        } else {
            (parts, cur.push(s.last()))
        }
    }
}

/// The pieces of `s` between occurrences of `sep` (like `split(sep)`), empty pieces included.
pub open spec fn pieces_between(s: Seq<char>, sep: char) -> Seq<Seq<char>> {
    let (parts, cur) = sep_split(s, sep);
    parts.push(cur)
}

/// The views of a vector of character vectors.
pub open spec fn views(v: Seq<Vec<char>>) -> Seq<Seq<char>> {
    Seq::new(v.len(), |i: int| v[i]@)
}

/// Splits `cs` into its white-space separated tokens.
pub fn split_tokens(cs: &Vec<char>) -> (r: Vec<Vec<char>>)
    ensures
        views(r@) == tokens(cs@),
{
    let mut toks: Vec<Vec<char>> = Vec::new();
    let mut cur: Vec<char> = Vec::new();
    let mut i: usize = 0;
    while i < cs.len()
        invariant
            0 <= i <= cs@.len(),
            views(toks@) == ws_split(cs@.take(i as int)).0,
            cur@ == ws_split(cs@.take(i as int)).1,
        decreases cs@.len() - i,
    {
        let c = cs[i];
        proof {
            assert(cs@.take(i + 1).drop_last() =~= cs@.take(i as int));
        }
        if is_whitespace(c) {
            if cur.len() > 0 {
                let done = cur;
                toks.push(done);
                cur = Vec::new();
                proof {
                    assert(views(toks@) =~= ws_split(cs@.take(i + 1)).0);
                }
            }
        } else {
            cur.push(c);
        }
        i = i + 1;
    }
    proof {
        assert(cs@.take(i as int) =~= cs@);
    }
    if cur.len() > 0 {
        toks.push(cur);
        proof {
            assert(views(toks@) =~= tokens(cs@));
        }
    }
    toks
}

/// Splits `cs` at each `sep`, keeping empty pieces.
pub fn split_at_char(cs: &Vec<char>, sep: char) -> (r: Vec<Vec<char>>)
    ensures
        views(r@) == pieces_between(cs@, sep),
{
    let mut parts: Vec<Vec<char>> = Vec::new();
    let mut cur: Vec<char> = Vec::new();
    let mut i: usize = 0;
    while i < cs.len()
        invariant
            0 <= i <= cs@.len(),
            views(parts@) == sep_split(cs@.take(i as int), sep).0,
            cur@ == sep_split(cs@.take(i as int), sep).1,
        decreases cs@.len() - i,
    {
        let c = cs[i];
        proof {
            assert(cs@.take(i + 1).drop_last() =~= cs@.take(i as int));
        }
        if c == sep {
            let done = cur;
            parts.push(done);
            cur = Vec::new();
            proof {
                assert(views(parts@) =~= sep_split(cs@.take(i + 1), sep).0);
            }
        } else {
            cur.push(c);
        }
        i = i + 1;
    }
    proof {
        assert(cs@.take(i as int) =~= cs@);
    }
    parts.push(cur);
    proof {
        assert(views(parts@) =~= pieces_between(cs@, sep));
    }
    parts
}

pub open spec fn is_digit(c: char) -> bool {
    '0' <= c <= '9'
}

pub open spec fn digit_value(c: char) -> int {
    c as int - '0' as int
}

pub open spec fn all_digits(s: Seq<char>) -> bool {
    forall|i: int| 0 <= i < s.len() ==> is_digit(#[trigger] s[i])
}

/// The number the decimal digits `s` spell.
pub open spec fn digits_value(s: Seq<char>) -> int
    decreases s.len(),
{
    if s.len() == 0 {
        0
    } else {
        digits_value(s.drop_last()) * 10 + digit_value(s.last())
    }
}

/// The unsigned number `s` spells, optionally after one '+', if it is at most `max`
/// (the grammar of `str::parse` for unsigned integers).
pub open spec fn parse_unsigned(s: Seq<char>, max: int) -> Option<int> {
    let body = if s.len() > 0 && s[0] == '+' {
        s.skip(1)
    } else {
        s
    };
    if body.len() > 0 && all_digits(body) && digits_value(body) <= max {
        Some(digits_value(body))
    } else {
        None
    }
}

proof fn lemma_digits_value_mono(s: Seq<char>, i: int)
    requires
        all_digits(s),
        0 <= i <= s.len(),
    ensures
        0 <= digits_value(s.take(i)) <= digits_value(s),
    decreases s.len(),
{
    if i < s.len() {
        assert(s.drop_last().take(i) =~= s.take(i));
        assert(all_digits(s.drop_last())) by {
            assert forall|k: int| 0 <= k < s.drop_last().len() implies is_digit(#[trigger] s.drop_last()[k]) by {
                assert(s.drop_last()[k] == s[k]);
            }
        }
        lemma_digits_value_mono(s.drop_last(), i);
        lemma_digits_value_nonneg(s.drop_last());
        assert(is_digit(s[s.len() - 1]));
    } else {
        assert(s.take(i) =~= s);
        lemma_digits_value_nonneg(s);
    }
}

proof fn lemma_digits_value_nonneg(s: Seq<char>)
    requires
        all_digits(s),
    ensures
        digits_value(s) >= 0,
    decreases s.len(),
{
    if s.len() > 0 {
        assert(all_digits(s.drop_last())) by {
            assert forall|k: int| 0 <= k < s.drop_last().len() implies is_digit(#[trigger] s.drop_last()[k]) by {
                assert(s.drop_last()[k] == s[k]);
            }
        }
        lemma_digits_value_nonneg(s.drop_last());
        assert(is_digit(s[s.len() - 1]));
    }
}

/// Parses an unsigned decimal number no larger than `max`, as `str::parse` does for unsigned types.
pub fn parse_number(cs: &Vec<char>, max: u64) -> (r: Option<u64>)
    ensures
        match r {
            Some(n) => parse_unsigned(cs@, max as int) == Some(n as int),
            None => parse_unsigned(cs@, max as int) is None,
        },
{
    let ghost s = cs@;
    let start: usize = if cs.len() > 0 && cs[0] == '+' { 1 } else { 0 };
    let ghost body = if s.len() > 0 && s[0] == '+' { s.skip(1) } else { s };
    proof {
        assert(body =~= s.skip(start as int));
    }
    if start >= cs.len() {
        return None;
    }
    let mut value: u64 = 0;
    let mut i: usize = start;
    while i < cs.len()
        invariant
            start <= i <= cs@.len(),
            s == cs@,
            start < s.len(),
            body == s.skip(start as int),
            body == (if s.len() > 0 && s[0] == '+' { s.skip(1) } else { s }),
            all_digits(body.take(i - start)),
            value as int == digits_value(body.take(i - start)),
            value <= max,
        decreases cs@.len() - i,
    {
        let c = cs[i];
        let ghost pre = body.take(i - start);
        let ghost next = body.take(i - start + 1);
        proof {
            assert(next.drop_last() =~= pre);
            assert(next.last() == c);
        }
        if !('0' <= c && c <= '9') {
            proof {
                assert(body[i - start] == c);
                assert(!is_digit(body[i - start]));
                assert(!all_digits(body));
            }
            return None;
        }
        let d = (c as u64) - ('0' as u64);
        if d > max || value > (max - d) / 10 {
            proof {
                assert(all_digits(next)) by {
                    assert forall|k: int| 0 <= k < next.len() implies is_digit(#[trigger] next[k]) by {
                        if k < pre.len() {
                            assert(next[k] == pre[k]);
                        }
                    }
                }
                assert(digits_value(next) == value * 10 + d);
                if d <= max {
                assert(digits_value(next) > max) by (nonlinear_arith)
                    requires
                        digits_value(next) == value * 10 + d,
                        value > (max - d) / 10,
                        d <= 9,
                        d <= max,
                ;
                }
                if all_digits(body) {
                    lemma_digits_value_mono(body, i - start + 1);
                }
            }
            return None;
        }
        proof {
            assert(value * 10 + d <= max) by (nonlinear_arith)
                requires
                    value <= (max - d) / 10,
                    d <= max,
            ;
        }
        value = value * 10 + d;
        proof {
            assert(all_digits(next)) by {
                assert forall|k: int| 0 <= k < next.len() implies is_digit(#[trigger] next[k]) by {
                    if k < pre.len() {
                        assert(next[k] == pre[k]);
                    }
                }
            }
        }
        i = i + 1;
    }
    proof {
        assert(body.take(i - start) =~= body);
    }
    Some(value)
}

/// Appends the characters of `t` to `s`.
pub fn append_chars(s: &mut String, t: &Vec<char>)
    ensures
        final(s)@ == old(s)@ + t@,
{
    let ghost s0 = s@;
    let mut i: usize = 0;
    while i < t.len()
        invariant
            0 <= i <= t@.len(),
            s@ == s0 + t@.take(i as int),
        decreases t@.len() - i,
    {
        push_char(s, t[i]);
        proof {
            assert(s@ =~= s0 + t@.take(i + 1));
        }
        i = i + 1;
    }
    proof {
        assert(t@.take(t@.len() as int) =~= t@);
    }
}

/// Appends `t` to `s`.
pub fn append_str(s: &mut String, t: &str)
    ensures
        final(s)@ == old(s)@ + t@,
{
    let cs = chars_of(t);
    append_chars(s, &cs);
}

/// The string with the characters of `cs`.
pub fn string_of(cs: &Vec<char>) -> (r: String)
    ensures
        r@ == cs@,
{
    let mut s = String::new();
    append_chars(&mut s, cs);
    proof {
        assert(s@ =~= cs@);
    }
    s
}

/// Whether `a` and `b` hold the same characters.
pub fn same_chars(a: &Vec<char>, b: &Vec<char>) -> (r: bool)
    ensures
        r == (a@ == b@),
{
    if a.len() != b.len() {
        return false;
    }
    let mut i: usize = 0;
    while i < a.len()
        invariant
            0 <= i <= a@.len(),
            a@.len() == b@.len(),
            a@.take(i as int) == b@.take(i as int),
        decreases a@.len() - i,
    {
        if a[i] != b[i] {
            return false;
        }
        proof {
            assert(a@.take(i + 1) =~= a@.take(i as int).push(a@[i as int]));
            assert(b@.take(i + 1) =~= b@.take(i as int).push(b@[i as int]));
        }
        i = i + 1;
    }
    proof {
        assert(a@.take(i as int) =~= a@);
        assert(b@.take(i as int) =~= b@);
    }
    true
}

/// Whether `s` is exactly the text `lit`.
pub fn is_text(s: &str, lit: &str) -> (r: bool)
    ensures
        r == (s@ == lit@),
{
    same_chars(&chars_of(s), &chars_of(lit))
}

/// `s` begins with `prefix`.
pub open spec fn has_prefix(s: Seq<char>, prefix: Seq<char>) -> bool {
    prefix.len() <= s.len() && s.take(prefix.len() as int) == prefix
}

/// Whether `cs` begins with `prefix`.
pub fn begins_with(cs: &Vec<char>, prefix: &str) -> (r: bool)
    ensures
        r == has_prefix(cs@, prefix@),
{
    let p = chars_of(prefix);
    if p.len() > cs.len() {
        return false;
    }
    let mut i: usize = 0;
    while i < p.len()
        invariant
            0 <= i <= p@.len(),
            p@ == prefix@,
            p@.len() <= cs@.len(),
            cs@.take(i as int) == p@.take(i as int),
        decreases p@.len() - i,
    {
        if cs[i] != p[i] {
            proof {
                assert(cs@.take(p@.len() as int)[i as int] == cs@[i as int]);
            }
            return false;
        }
        proof {
            assert(cs@.take(i + 1) =~= cs@.take(i as int).push(cs@[i as int]));
            assert(p@.take(i + 1) =~= p@.take(i as int).push(p@[i as int]));
        }
        i = i + 1;
    }
    proof {
        assert(p@.take(i as int) =~= p@);
    }
    true
}

/// `s` without its leading white space.
pub open spec fn trim_start(s: Seq<char>) -> Seq<char>
    decreases s.len(),
{
    if s.len() > 0 && is_ws(s[0]) {
        trim_start(s.skip(1))
    } else {
        s
    }
}

/// `s` without its trailing white space.
pub open spec fn trim_end(s: Seq<char>) -> Seq<char>
    decreases s.len(),
{
    if s.len() > 0 && is_ws(s.last()) {
        trim_end(s.drop_last())
    } else {
        s
    }
}

/// `s` without leading and trailing white space (like `str::trim`).
pub open spec fn trim(s: Seq<char>) -> Seq<char> {
    trim_end(trim_start(s))
}

/// The characters of `cs` from `start` on.
pub fn chars_from(cs: &Vec<char>, start: usize) -> (r: Vec<char>)
    requires
        start <= cs@.len(),
    ensures
        r@ == cs@.skip(start as int),
{
    let mut out: Vec<char> = Vec::new();
    let mut i = start;
    while i < cs.len()
        invariant
            start <= i <= cs@.len(),
            out@ == cs@.subrange(start as int, i as int),
        decreases cs@.len() - i,
    {
        out.push(cs[i]);
        proof {
            assert(out@ =~= cs@.subrange(start as int, i + 1));
        }
        i = i + 1;
    }
    proof {
        assert(out@ =~= cs@.skip(start as int));
    }
    out
}

/// The characters of `cs` below `end`.
pub fn chars_until(cs: &Vec<char>, end: usize) -> (r: Vec<char>)
    requires
        end <= cs@.len(),
    ensures
        r@ == cs@.take(end as int),
{
    let mut out: Vec<char> = Vec::new();
    let mut i: usize = 0;
    while i < end
        invariant
            0 <= i <= end,
            end <= cs@.len(),
            out@ == cs@.take(i as int),
        decreases end - i,
    {
        out.push(cs[i]);
        proof {
            assert(out@ =~= cs@.take(i + 1));
        }
        i = i + 1;
    }
    out
}

/// `cs` without its leading white space.
pub fn trimmed_start(cs: &Vec<char>) -> (r: Vec<char>)
    ensures
        r@ == trim_start(cs@),
{
    let mut i: usize = 0;
    proof {
        assert(cs@.skip(0) =~= cs@);
    }
    while i < cs.len() && is_whitespace(cs[i])
        invariant
            0 <= i <= cs@.len(),
            trim_start(cs@) == trim_start(cs@.skip(i as int)),
        decreases cs@.len() - i,
    {
        proof {
            assert(cs@.skip(i as int).skip(1) =~= cs@.skip(i + 1));
        }
        i = i + 1;
    }
    chars_from(cs, i)
}

/// `cs` without its trailing white space.
pub fn trimmed_end(cs: &Vec<char>) -> (r: Vec<char>)
    ensures
        r@ == trim_end(cs@),
{
    let mut n: usize = cs.len();
    proof {
        assert(cs@.take(n as int) =~= cs@);
    }
    while n > 0 && is_whitespace(cs[n - 1])
        invariant
            0 <= n <= cs@.len(),
            trim_end(cs@) == trim_end(cs@.take(n as int)),
        decreases n,
    {
        proof {
            assert(cs@.take(n as int).drop_last() =~= cs@.take(n - 1));
        }
        n = n - 1;
    }
    proof {
        assert(cs@.take(cs@.len() as int) =~= cs@);
    }
    chars_until(cs, n)
}

/// `cs` without leading and trailing white space.
pub fn trimmed(cs: &Vec<char>) -> (r: Vec<char>)
    ensures
        r@ == trim(cs@),
{
    trimmed_end(&trimmed_start(cs))
}

/// Bytes in the UTF-8 encoding of `c`.
pub open spec fn utf8_width(c: char) -> nat {
    if (c as u32) < 0x80 {
        1
    } else if (c as u32) < 0x800 {
        2
    } else if (c as u32) < 0x10000 {
        3
    } else {
        4
    }
}

/// Bytes in the UTF-8 encoding of `s`.
pub open spec fn utf8_len(s: Seq<char>) -> nat
    decreases s.len(),
{
    if s.len() == 0 {
        0
    } else {
        utf8_len(s.drop_last()) + utf8_width(s.last())
    }
}

/// Bytes in the UTF-8 encoding of `cs`, saturating at `usize::MAX`.
pub fn utf8_length(cs: &Vec<char>) -> (r: usize)
    ensures
        r == if utf8_len(cs@) > usize::MAX {
            usize::MAX as nat
        } else {
            utf8_len(cs@)
        },
{
    let mut total: usize = 0;
    let mut i: usize = 0;
    while i < cs.len()
        invariant
            0 <= i <= cs@.len(),
            total == if utf8_len(cs@.take(i as int)) > usize::MAX {
                usize::MAX as nat
            } else {
                utf8_len(cs@.take(i as int))
            },
        decreases cs@.len() - i,
    {
        proof {
            assert(cs@.take(i + 1).drop_last() =~= cs@.take(i as int));
        }
        let c = cs[i];
        let w: usize = if (c as u32) < 0x80 {
            1
        } else if (c as u32) < 0x800 {
            2
        } else if (c as u32) < 0x10000 {
            3
        } else {
            4
        };
        total = if total > usize::MAX - w {
            usize::MAX
        } else {
            total + w
        };
        i = i + 1;
    }
    proof {
        assert(cs@.take(i as int) =~= cs@);
    }
    total
}

/// `m` occurs in `s` starting at `i`.
pub open spec fn occurs_at(s: Seq<char>, m: Seq<char>, i: int) -> bool {
    0 <= i && i + m.len() <= s.len() && s.subrange(i, i + m.len()) == m
}

/// Where `m` first occurs in `s`.
#[verifier::opaque]
pub open spec fn first_occurrence(s: Seq<char>, m: Seq<char>) -> Option<int> {
    if exists|i: int| occurs_at(s, m, i) {
        Some(choose|i: int| occurs_at(s, m, i) && forall|j: int| 0 <= j < i ==> !occurs_at(s, m, j))
    } else {
        None
    }
}

/// Whether `m` occurs in `s` at `i`.
fn matches_at(s: &Vec<char>, m: &Vec<char>, i: usize) -> (r: bool)
    requires
        i + m@.len() <= s@.len(),
    ensures
        r == occurs_at(s@, m@, i as int),
{
    let slen = s.len();
    let mut k: usize = 0;
    while k < m.len()
        invariant
            0 <= k <= m@.len(),
            slen == s@.len(),
            i + m@.len() <= s@.len(),
            s@.subrange(i as int, i + k) == m@.take(k as int),
        decreases m@.len() - k,
    {
        if s[i + k] != m[k] {
            proof {
                assert(s@.subrange(i as int, i + m@.len())[k as int] == s@[i + k]);
            }
            return false;
        }
        proof {
            assert(s@.subrange(i as int, i + k + 1) =~= s@.subrange(i as int, i + k).push(s@[i + k]));
            assert(m@.take(k + 1) =~= m@.take(k as int).push(m@[k as int]));
        }
        k = k + 1;
    }
    proof {
        assert(m@.take(k as int) =~= m@);
    }
    true
}

/// The index of the first occurrence of `m` in `s`.
pub fn find_chars(s: &Vec<char>, m: &Vec<char>) -> (r: Option<usize>)
    requires
        m@.len() > 0,
    ensures
        match r {
            Some(i) => first_occurrence(s@, m@) == Some(i as int) && occurs_at(s@, m@, i as int),
            None => first_occurrence(s@, m@) is None,
        },
{
    reveal(first_occurrence);
    if m.len() > s.len() {
        proof {
            assert(!exists|i: int| occurs_at(s@, m@, i));
        }
        return None;
    }
    let last = s.len() - m.len();
    let mut i: usize = 0;
    while i <= last
        invariant
            0 <= i <= last + 1,
            last < usize::MAX,
            last + m@.len() == s@.len(),
            forall|j: int| 0 <= j < i ==> !occurs_at(s@, m@, j),
        decreases last + 1 - i,
    {
        if matches_at(s, m, i) {
            proof {
                reveal(first_occurrence);
                let c = choose|j: int| occurs_at(s@, m@, j) && forall|k: int| 0 <= k < j ==> !occurs_at(s@, m@, k);
                assert(occurs_at(s@, m@, c));
                if c < i {
                } else if c > i {
                }
                assert(c == i);
            }
            return Some(i);
        }
        i = i + 1;
    }
    proof {
        assert forall|j: int| !occurs_at(s@, m@, j) by {
            if 0 <= j < i {
            }
        }
    }
    None
}

/// The decimal digits of `n`.
pub open spec fn decimal(n: nat) -> Seq<char>
    decreases n,
{
    if n < 10 {
        seq![(n + '0' as int) as char]
    } else {
        decimal(n / 10).push(((n % 10) + '0' as int) as char)
    }
}

/// Appends the decimal digits of `n` to `s`.
pub fn push_decimal(s: &mut String, n: u64)
    ensures
        final(s)@ == old(s)@ + decimal(n as nat),
    decreases n,
{
    if n >= 10 {
        push_decimal(s, n / 10);
    }
    let d = ((n % 10) as u32 + ('0' as u32)) as u8;
    push_char(s, d as char);
    proof {
        if n >= 10 {
            assert(final(s)@ =~= old(s)@ + decimal(n as nat));
        }
    }
}
} // verus!
