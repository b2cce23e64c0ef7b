//! Character-level helpers: the order of object keys, splitting and escaping of
//! pointer tokens, and decimal numbers.
use vstd::prelude::*;

verus! {

/// Lexicographic order of strings by code point, the order in which a JSON
/// object keeps its members.
pub open spec fn key_lt(a: Seq<char>, b: Seq<char>) -> bool
    decreases a.len(),
{
    if a.len() == 0 {
        b.len() > 0
    } else if b.len() == 0 {
        false
    } else if a[0] == b[0] {
        key_lt(a.drop_first(), b.drop_first())
    } else {
        a[0] < b[0]
    }
}

pub proof fn lemma_key_lt_irreflexive(a: Seq<char>)
    ensures
        !key_lt(a, a),
    decreases a.len(),
{
    if a.len() > 0 {
        lemma_key_lt_irreflexive(a.drop_first());
    }
}

pub proof fn lemma_key_lt_transitive(a: Seq<char>, b: Seq<char>, c: Seq<char>)
    requires
        key_lt(a, b),
        key_lt(b, c),
    ensures
        key_lt(a, c),
    decreases a.len(),
{
    if a.len() > 0 && b.len() > 0 && c.len() > 0 {
        if a[0] == b[0] && b[0] == c[0] {
            lemma_key_lt_transitive(a.drop_first(), b.drop_first(), c.drop_first());
        }
    }
}

pub proof fn lemma_key_lt_total(a: Seq<char>, b: Seq<char>)
    ensures
        a != b ==> key_lt(a, b) || key_lt(b, a),
        !(key_lt(a, b) && key_lt(b, a)),
    decreases a.len(),
{
    if a.len() > 0 && b.len() > 0 {
        lemma_key_lt_total(a.drop_first(), b.drop_first());
        if a[0] == b[0] && a != b {
            assert(a =~= seq![a[0]] + a.drop_first());
            assert(b =~= seq![b[0]] + b.drop_first());
        }
    } else if a.len() == 0 && b.len() == 0 {
        assert(a =~= b);
    }
}

/// Compares two keys in the order of `key_lt`.
pub fn chars_lt(a: &Vec<char>, b: &Vec<char>) -> (r: bool)
    ensures
        r == key_lt(a@, b@),
{
    let mut i: usize = 0;
    assert(a@.skip(0) =~= a@);
    assert(b@.skip(0) =~= b@);
    while i < a.len() && i < b.len()
        invariant
            i <= a.len(),
            i <= b.len(),
            a@.subrange(0, i as int) == b@.subrange(0, i as int),
            key_lt(a@, b@) == key_lt(a@.skip(i as int), b@.skip(i as int)),
        decreases a.len() - i,
    {
        if a[i] != b[i] {
            assert(a@.skip(i as int)[0] == a[i as int]);
            assert(b@.skip(i as int)[0] == b[i as int]);
            return a[i] < b[i];
        }
        assert(a@.skip(i as int).drop_first() =~= a@.skip(i + 1));
        assert(b@.skip(i as int).drop_first() =~= b@.skip(i + 1));
        assert(a@.subrange(0, i + 1) =~= a@.subrange(0, i as int).push(a[i as int]));
        assert(b@.subrange(0, i + 1) =~= b@.subrange(0, i as int).push(b[i as int]));
        i = i + 1;
    }
    i < b.len()
}

/// The characters of a string, in order.
pub fn chars_of(s: &str) -> (r: Vec<char>)
    ensures
        r@ == s@,
{
    let mut r: Vec<char> = Vec::new();
    for c in it: s.chars()
        invariant
            it.seq() == s@,
            r.len() == it.index(),
            r@ == s@.take(r.len() as int),
    {
        r.push(c);
        assert(s@.take(r.len() as int) =~= r@);
    }
    assert(r@ =~= s@);
    r
}

/// Appends `c` to `s`.
#[verifier::external_body]
fn push_char(s: &mut String, c: char)
    ensures
        final(s)@ == old(s)@.push(c),
{
    s.push(c);
}

/// The string made of the given characters, in order.
pub fn string_of(cs: &[char]) -> (r: String)
    ensures
        r@ == cs@,
{
    let mut r = String::new();
    let mut i: usize = 0;
    while i < cs.len()
        invariant
            i <= cs.len(),
            r@ == cs@.take(i as int),
        decreases cs.len() - i,
    {
        push_char(&mut r, cs[i]);
        i = i + 1;
        assert(r@ =~= cs@.take(i as int));
    }
    assert(cs@.take(i as int) =~= cs@);
    r
}

/// The pieces of `s` between occurrences of `sep`, as `str::split` gives them:
/// `n` separators give `n + 1` pieces, some of them possibly empty.
pub open spec fn split_on(s: Seq<char>, sep: char) -> Seq<Seq<char>>
    decreases s.len(),
{
    if s.len() == 0 {
        seq![Seq::<char>::empty()]
    } else {
        let rest = split_on(s.drop_first(), sep);
        if s[0] == sep {
            seq![Seq::<char>::empty()] + rest
        } else {
            rest.update(0, seq![s[0]] + rest[0])
        }
    }
}

pub proof fn lemma_split_on_nonempty(s: Seq<char>, sep: char)
    ensures
        split_on(s, sep).len() >= 1,
    decreases s.len(),
{
    if s.len() > 0 {
        lemma_split_on_nonempty(s.drop_first(), sep);
    }
}

/// `s` with every non-overlapping occurrence of the pair `a b`, scanned from the
/// left, replaced by `r`, as `str::replace` does for a two-character pattern.
pub open spec fn replace_pair(s: Seq<char>, a: char, b: char, r: char) -> Seq<char>
    decreases s.len(),
{
    if s.len() == 0 {
        s
    } else if s.len() >= 2 && s[0] == a && s[1] == b {
        seq![r] + replace_pair(s.skip(2), a, b, r)
    } else {
        seq![s[0]] + replace_pair(s.drop_first(), a, b, r)
    }
}

/// A reference token with its escapes undone: `~1` becomes `/`, then `~0` becomes `~`.
pub open spec fn decode_token(t: Seq<char>) -> Seq<char> {
    replace_pair(replace_pair(t, '~', '1', '/'), '~', '0', '~')
}

/// A key written as a reference token: `~` becomes `~0` and `/` becomes `~1`.
pub open spec fn escape_key(k: Seq<char>) -> Seq<char>
    decreases k.len(),
{
    if k.len() == 0 {
        k
    } else {
        let head = if k[0] == '~' {
            seq!['~', '0']
        } else if k[0] == '/' {
            seq!['~', '1']
        } else {
            seq![k[0]]
        };
        head + escape_key(k.drop_first())
    }
}

/// Replaces, from left to right, each `a b` pair of `s` by `r`.
pub fn replace_pair_exec(s: &Vec<char>, a: char, b: char, r: char) -> (out: Vec<char>)
    ensures
        out@ == replace_pair(s@, a, b, r),
{
    let mut out: Vec<char> = Vec::new();
    let mut i: usize = 0;
    assert(s@.skip(0) =~= s@);
    assert(out@ + s@ =~= s@);
    while i < s.len()
        invariant
            i <= s.len(),
            replace_pair(s@, a, b, r) == out@ + replace_pair(s@.skip(i as int), a, b, r),
        decreases s.len() - i,
    {
        let ghost rest = s@.skip(i as int);
        if i + 1 < s.len() && s[i] == a && s[i + 1] == b {
            assert(rest[0] == a && rest[1] == b);
            assert(rest.skip(2) =~= s@.skip(i + 2));
            out.push(r);
            i = i + 2;
        } else {
            assert(rest[0] == s[i as int]);
            assert(rest.drop_first() =~= s@.skip(i + 1));
            out.push(s[i]);
            i = i + 1;
        }
    }
    assert(s@.skip(i as int) =~= Seq::<char>::empty());
    assert(out@ + Seq::<char>::empty() =~= out@);
    out
}

/// Undoes the escapes of one reference token.
pub fn decode_token_exec(t: &Vec<char>) -> (out: Vec<char>)
    ensures
        out@ == decode_token(t@),
{
    let first = replace_pair_exec(t, '~', '1', '/');
    replace_pair_exec(&first, '~', '0', '~')
}

/// Splits `s` on `sep`, as `str::split` does.
pub fn split_exec(s: &Vec<char>, start: usize, sep: char) -> (out: Vec<Vec<char>>)
    requires
        start <= s.len(),
    ensures
        out@.len() == split_on(s@.skip(start as int), sep).len(),
        forall|i: int|
            0 <= i < out@.len() ==> #[trigger] out@[i]@ == split_on(s@.skip(start as int), sep)[i],
    decreases s.len() - start,
{
    if start == s.len() {
        let mut out: Vec<Vec<char>> = Vec::new();
        out.push(Vec::new());
        assert(s@.skip(start as int).len() == 0);
        return out;
    }
    let ghost cur = s@.skip(start as int);
    assert(cur.drop_first() =~= s@.skip(start + 1));
    let mut rest = split_exec(s, start + 1, sep);
    proof {
        lemma_split_on_nonempty(cur.drop_first(), sep);
    }
    if s[start] == sep {
        let ghost rest_v = rest@;
        let mut out: Vec<Vec<char>> = Vec::new();
        out.push(Vec::new());
        out.append(&mut rest);
        assert forall|i: int| 0 <= i < out@.len() implies #[trigger] out@[i]@ == split_on(cur, sep)[i] by {
            if i > 0 {
                assert(out@[i] == rest_v[i - 1]);
            }
        }
        out
    } else {
        let mut first: Vec<char> = Vec::new();
        first.push(s[start]);
        let mut j: usize = 0;
        while j < rest[0].len()
            invariant
                rest@.len() >= 1,
                j <= rest[0]@.len(),
                first@ == seq![s[start as int]] + rest[0]@.subrange(0, j as int),
            decreases rest[0]@.len() - j,
        {
            first.push(rest[0][j]);
            j = j + 1;
            assert(rest[0]@.subrange(0, j as int) =~= rest[0]@.subrange(0, j - 1).push(rest[0]@[j - 1]));
        }
        assert(rest[0]@.subrange(0, j as int) =~= rest[0]@);
        rest.set(0, first);
        rest
    }
}

/// The decimal digits of `n`, most significant first, as `{}` formats it.
pub open spec fn decimal(n: nat) -> Seq<char>
    decreases n,
{
    if n < 10 {
        seq![digit_char(n)]
    } else {
        decimal(n / 10).push(digit_char(n % 10))
    }
}

pub open spec fn digit_char(d: nat) -> char {
    if d == 0 {
        '0'
    } else if d == 1 {
        '1'
    } else if d == 2 {
        '2'
    } else if d == 3 {
        '3'
    } else if d == 4 {
        '4'
    } else if d == 5 {
        '5'
    } else if d == 6 {
        '6'
    } else if d == 7 {
        '7'
    } else if d == 8 {
        '8'
    } else {
        '9'
    }
}

/// The value of a digit character, for `'0'` to `'9'`.
pub open spec fn digit_value(c: char) -> Option<nat> {
    if '0' <= c && c <= '9' {
        Some((c as u32 - '0' as u32) as nat)
    } else {
        None
    }
}

/// Whether every character of `s` is an ASCII digit.
pub open spec fn all_digits(s: Seq<char>) -> bool {
    forall|i: int| 0 <= i < s.len() ==> #[trigger] digit_value(s[i]) is Some
}

/// The number that a string of ASCII digits denotes in base ten.
pub open spec fn digits_value(s: Seq<char>) -> nat
    decreases s.len(),
{
    if s.len() == 0 {
        0
    } else {
        digits_value(s.drop_last()) * 10 + digit_value(s.last()).unwrap_or(0)
    }
}

/// What `str::parse::<usize>` gives: an optional `+`, then at least one ASCII
/// digit and nothing else, of a value that fits in a `usize`.
pub open spec fn parse_usize(s: Seq<char>) -> Option<usize> {
    let digits = if s.len() > 0 && s[0] == '+' {
        s.drop_first()
    } else {
        s
    };
    if digits.len() > 0 && all_digits(digits) && digits_value(digits) <= usize::MAX {
        Some(digits_value(digits) as usize)
    } else {
        None
    }
}

proof fn lemma_digits_value_prefix(s: Seq<char>, i: int)
    requires
        0 <= i <= s.len(),
    ensures
        digits_value(s.subrange(0, i)) <= digits_value(s),
    decreases s.len(),
{
    if i < s.len() {
        lemma_digits_value_prefix(s.drop_last(), i);
        assert(s.drop_last().subrange(0, i) =~= s.subrange(0, i));
    } else {
        assert(s.subrange(0, i) =~= s);
    }
}

/// Parses a non-negative decimal integer as `str::parse::<usize>` does.
pub fn parse_usize_exec(s: &Vec<char>) -> (r: Option<usize>)
    ensures
        r == parse_usize(s@),
{
    let start: usize = if s.len() > 0 && s[0] == '+' {
        1
    } else {
        0
    };
    let ghost digits = if s@.len() > 0 && s@[0] == '+' {
        s@.drop_first()
    } else {
        s@
    };
    assert(digits =~= s@.skip(start as int));
    if start == s.len() {
        assert(digits.len() == 0);
        assert(parse_usize(s@) == None::<usize>);
        return None;
    }
    let mut value: usize = 0;
    let mut i: usize = start;
    while i < s.len()
        invariant
            start <= i <= s.len(),
            start < s.len(),
            digits =~= s@.skip(start as int),
            parse_usize(s@) == (if digits.len() > 0 && all_digits(digits) && digits_value(digits)
                <= usize::MAX {
                Some(digits_value(digits) as usize)
            } else {
                None
            }),
            all_digits(digits.subrange(0, i - start)),
            value as nat == digits_value(digits.subrange(0, i - start)),
        decreases s.len() - i,
    {
        let c = s[i];
        let ghost pre = digits.subrange(0, i - start);
        let ghost next = digits.subrange(0, i + 1 - start);
        assert(next.drop_last() =~= pre);
        assert(next.last() == c);
        if !('0' <= c && c <= '9') {
            assert(digits[i - start] == c);
            assert(digit_value(digits[i - start]) is None);
            assert(!all_digits(digits));
            return None;
        }
        let d: usize = (c as u32 - '0' as u32) as usize;
        assert(digits_value(next) == digits_value(pre) * 10 + d);
        if value > (usize::MAX - d) / 10 {
            proof {
                assert(value * 10 + d > usize::MAX) by (nonlinear_arith)
                    requires
                        value > (usize::MAX - d) / 10,
                        d <= 9,
                ;
                lemma_digits_value_prefix(digits, i + 1 - start);
            }
            return None;
        }
        assert(value * 10 + d <= usize::MAX) by (nonlinear_arith)
            requires
                value <= (usize::MAX - d) / 10,
                d <= 9,
        ;
        value = value * 10 + d;
        i = i + 1;
        assert forall|j: int| 0 <= j < next.len() implies #[trigger] digit_value(next[j]) is Some by {
            if j < pre.len() {
                assert(next[j] == pre[j]);
            }
        }
    }
    assert(digits.subrange(0, i - start) =~= digits);
    Some(value)
}

/// Appends the decimal digits of `n` to `out`.
pub fn push_decimal(out: &mut Vec<char>, n: usize)
    ensures
        final(out)@ == old(out)@ + decimal(n as nat),
    decreases n,
{
    if n >= 10 {
        push_decimal(out, n / 10);
    }
    let d = n % 10;
    let c = if d == 0 {
        '0'
    } else if d == 1 {
        '1'
    } else if d == 2 {
        '2'
    } else if d == 3 {
        '3'
    } else if d == 4 {
        '4'
    } else if d == 5 {
        '5'
    } else if d == 6 {
        '6'
    } else if d == 7 {
        '7'
    } else if d == 8 {
        '8'
    } else {
        '9'
    };
    out.push(c);
    proof {
        if n < 10 {
            assert(decimal(n as nat) =~= seq![c]);
        } else {
            assert(decimal(n as nat) == decimal((n / 10) as nat).push(c));
        }
    }
}

/// `s` read as a token without escapes to undo: a pair replacement whose first
/// character does not occur leaves it as it is.
pub proof fn lemma_replace_pair_absent(s: Seq<char>, a: char, b: char, r: char)
    requires
        !s.contains(a),
    ensures
        replace_pair(s, a, b, r) == s,
    decreases s.len(),
{
    if s.len() > 0 {
        assert(s[0] != a);
        assert(!s.drop_first().contains(a)) by {
            if s.drop_first().contains(a) {
                let i = choose|i: int| 0 <= i < s.drop_first().len() && s.drop_first()[i] == a;
                assert(s[i + 1] == a);
            }
        }
        lemma_replace_pair_absent(s.drop_first(), a, b, r);
        assert(s =~= seq![s[0]] + s.drop_first());
    }
}

/// A key with only its `~` characters escaped.
spec fn escape_tilde(k: Seq<char>) -> Seq<char>
    decreases k.len(),
{
    if k.len() == 0 {
        k
    } else {
        let head = if k[0] == '~' {
            seq!['~', '0']
        } else {
            seq![k[0]]
        };
        head + escape_tilde(k.drop_first())
    }
}

proof fn lemma_unescape_slash(k: Seq<char>)
    ensures
        replace_pair(escape_key(k), '~', '1', '/') == escape_tilde(k),
    decreases k.len(),
{
    if k.len() > 0 {
        let rest = k.drop_first();
        lemma_unescape_slash(rest);
        let s = escape_key(k);
        if k[0] == '~' {
            assert(s =~= seq!['~', '0'] + escape_key(rest));
            assert(s.drop_first() =~= seq!['0'] + escape_key(rest));
            assert(s.drop_first().drop_first() =~= escape_key(rest));
            assert(replace_pair(s.drop_first(), '~', '1', '/') =~= seq!['0'] + escape_tilde(rest));
            assert(replace_pair(s, '~', '1', '/') =~= escape_tilde(k));
        } else if k[0] == '/' {
            assert(s =~= seq!['~', '1'] + escape_key(rest));
            assert(s.skip(2) =~= escape_key(rest));
            assert(replace_pair(s, '~', '1', '/') =~= escape_tilde(k));
        } else {
            assert(s =~= seq![k[0]] + escape_key(rest));
            assert(s.drop_first() =~= escape_key(rest));
            assert(replace_pair(s, '~', '1', '/') =~= escape_tilde(k));
        }
    }
}

proof fn lemma_unescape_tilde(k: Seq<char>)
    ensures
        replace_pair(escape_tilde(k), '~', '0', '~') == k,
    decreases k.len(),
{
    if k.len() > 0 {
        let rest = k.drop_first();
        lemma_unescape_tilde(rest);
        let s = escape_tilde(k);
        if k[0] == '~' {
            assert(s =~= seq!['~', '0'] + escape_tilde(rest));
            assert(s.skip(2) =~= escape_tilde(rest));
        } else {
            assert(s =~= seq![k[0]] + escape_tilde(rest));
            assert(s.drop_first() =~= escape_tilde(rest));
        }
        assert(replace_pair(s, '~', '0', '~') =~= k);
    }
}

/// Undoing the escapes of an escaped key gives the key back.
pub proof fn lemma_decode_escape_key(k: Seq<char>)
    ensures
        decode_token(escape_key(k)) == k,
{
    lemma_unescape_slash(k);
    lemma_unescape_tilde(k);
}

/// An escaped key holds no `/`.
pub proof fn lemma_escape_key_shape(k: Seq<char>)
    ensures
        !escape_key(k).contains('/'),
    decreases k.len(),
{
    if k.len() > 0 {
        let rest = k.drop_first();
        lemma_escape_key_shape(rest);
        let s = escape_key(k);
        let head = if k[0] == '~' {
            seq!['~', '0']
        } else if k[0] == '/' {
            seq!['~', '1']
        } else {
            seq![k[0]]
        };
        assert(s == head + escape_key(rest));
        assert(!s.contains('/')) by {
            if s.contains('/') {
                let i = choose|i: int| 0 <= i < s.len() && s[i] == '/';
                if i >= head.len() {
                    assert(escape_key(rest)[i - head.len()] == '/');
                }
            }
        }
    }
}

/// The digits of `n` are ASCII digits worth `n`, and only zero is written with
/// a leading `0`.
pub proof fn lemma_decimal(n: nat)
    ensures
        decimal(n).len() > 0,
        all_digits(decimal(n)),
        digits_value(decimal(n)) == n,
        decimal(n)[0] == '0' ==> decimal(n).len() == 1,
    decreases n,
{
    if n < 10 {
        assert(decimal(n) == seq![digit_char(n)]);
        assert(digit_value(digit_char(n)) == Some(n));
        assert(decimal(n).drop_last() =~= Seq::<char>::empty());
        assert(decimal(n).last() == digit_char(n));
        assert(digits_value(decimal(n).drop_last()) == 0);
    } else {
        lemma_decimal(n / 10);
        let d = decimal(n);
        assert(d.drop_last() =~= decimal(n / 10));
        assert(d.last() == digit_char(n % 10));
        assert(digit_value(digit_char(n % 10)) == Some(n % 10));
        assert((n / 10) * 10 + n % 10 == n);
        assert(d[0] == decimal(n / 10)[0]);
        assert forall|i: int| 0 <= i < d.len() implies #[trigger] digit_value(d[i]) is Some by {
            if i < d.len() - 1 {
                assert(d[i] == decimal(n / 10)[i]);
            }
        }
        if decimal(n / 10)[0] == '0' {
            assert(digits_value(decimal(n / 10)) == 0) by {
                assert(decimal(n / 10).drop_last() =~= Seq::<char>::empty());
                assert(decimal(n / 10).last() == '0');
                assert(digits_value(decimal(n / 10).drop_last()) == 0);
                assert(digit_value('0') == Some(0nat));
            }
        }
    }
}

/// The digits of an index read back as that index, and hold neither `/` nor `~`.
pub proof fn lemma_decimal_parse(n: usize)
    ensures
        parse_usize(decimal(n as nat)) == Some(n),
        !decimal(n as nat).contains('/'),
        !decimal(n as nat).contains('~'),
        decimal(n as nat).len() > 0,
        decimal(n as nat)[0] != '+',
        decimal(n as nat)[0] == '0' ==> decimal(n as nat).len() == 1,
{
    let d = decimal(n as nat);
    lemma_decimal(n as nat);
    assert(digit_value(d[0]) is Some);
    assert(!d.contains('/')) by {
        if d.contains('/') {
            let i = choose|i: int| 0 <= i < d.len() && d[i] == '/';
            assert(digit_value(d[i]) is Some);
        }
    }
    assert(!d.contains('~')) by {
        if d.contains('~') {
            let i = choose|i: int| 0 <= i < d.len() && d[i] == '~';
            assert(digit_value(d[i]) is Some);
        }
    }
}

/// Splitting a piece without the separator gives the piece alone.
pub proof fn lemma_split_on_plain(x: Seq<char>, sep: char)
    requires
        !x.contains(sep),
    ensures
        split_on(x, sep) == seq![x],
    decreases x.len(),
{
    if x.len() > 0 {
        let rest = x.drop_first();
        assert(x[0] != sep);
        assert(!rest.contains(sep)) by {
            if rest.contains(sep) {
                let i = choose|i: int| 0 <= i < rest.len() && rest[i] == sep;
                assert(x[i + 1] == sep);
            }
        }
        lemma_split_on_plain(rest, sep);
        assert(seq![x[0]] + rest =~= x);
        assert(split_on(x, sep) =~= seq![seq![x[0]] + rest]);
    } else {
        assert(x =~= Seq::<char>::empty());
    }
}

/// Splitting a piece without the separator, the separator and more gives the
/// piece, then the pieces of the rest.
pub proof fn lemma_split_on_cons(x: Seq<char>, sep: char, y: Seq<char>)
    requires
        !x.contains(sep),
    ensures
        split_on(x + seq![sep] + y, sep) == seq![x] + split_on(y, sep),
    decreases x.len(),
{
    let s = x + seq![sep] + y;
    if x.len() == 0 {
        assert(x =~= Seq::<char>::empty());
        assert(s[0] == sep);
        assert(s.drop_first() =~= y);
        assert(split_on(s, sep) =~= seq![x] + split_on(y, sep));
    } else {
        let rest = x.drop_first();
        assert(x[0] != sep);
        assert(!rest.contains(sep)) by {
            if rest.contains(sep) {
                let i = choose|i: int| 0 <= i < rest.len() && rest[i] == sep;
                assert(x[i + 1] == sep);
            }
        }
        lemma_split_on_cons(rest, sep, y);
        assert(s.drop_first() =~= rest + seq![sep] + y);
        assert(s[0] == x[0]);
        assert(seq![x[0]] + rest =~= x);
        let tail = split_on(s.drop_first(), sep);
        assert(tail == seq![rest] + split_on(y, sep));
        assert(split_on(s, sep) == tail.update(0, seq![s[0]] + tail[0]));
        assert(split_on(s, sep) =~= seq![x] + split_on(y, sep));
    }
}

/// The number of times `c` occurs in `s`.
pub open spec fn count_char(s: Seq<char>, c: char) -> nat
    decreases s.len(),
{
    if s.len() == 0 {
        0
    } else {
        (if s[0] == c {
            1nat
        } else {
            0nat
        }) + count_char(s.drop_first(), c)
    }
}

/// The pieces joined again, with `sep` between each two.
pub open spec fn join_on(pieces: Seq<Seq<char>>, sep: char) -> Seq<char>
    decreases pieces.len(),
{
    if pieces.len() == 0 {
        Seq::empty()
    } else if pieces.len() == 1 {
        pieces[0]
    } else {
        pieces[0] + seq![sep] + join_on(pieces.drop_first(), sep)
    }
}

/// Splitting gives one piece more than there are separators, and joining the
/// pieces with the separator gives the string back.
pub proof fn lemma_split_on_join(s: Seq<char>, sep: char)
    ensures
        split_on(s, sep).len() == count_char(s, sep) + 1,
        join_on(split_on(s, sep), sep) == s,
    decreases s.len(),
{
    if s.len() == 0 {
        assert(s =~= Seq::<char>::empty());
    } else {
        let rest = s.drop_first();
        lemma_split_on_join(rest, sep);
        lemma_split_on_nonempty(rest, sep);
        let r = split_on(rest, sep);
        if s[0] == sep {
            let x = seq![Seq::<char>::empty()] + r;
            assert(x.drop_first() =~= r);
            assert(s =~= Seq::<char>::empty() + seq![sep] + rest);
        } else {
            let x = r.update(0, seq![s[0]] + r[0]);
            if r.len() == 1 {
                assert(join_on(x, sep) == x[0]);
                assert(r[0] == rest);
                assert(s =~= seq![s[0]] + rest);
            } else {
                assert(x.drop_first() =~= r.drop_first());
                assert(join_on(r, sep) == r[0] + seq![sep] + join_on(r.drop_first(), sep));
                assert(s =~= seq![s[0]] + rest);
                assert(join_on(x, sep) =~= seq![s[0]] + join_on(r, sep));
            }
        }
    }
}

/// `key_lt` is the order of `String`'s `Ord`, code point by code point: `a`
/// comes first where it is a proper prefix of `b`, or where at the first
/// place at which the two differ, `a` holds the smaller character.
pub proof fn lemma_key_lt_lexicographic(a: Seq<char>, b: Seq<char>)
    ensures
        key_lt(a, b) <==> (a.len() < b.len() && b.take(a.len() as int) == a) || exists|i: int|
            #![trigger a[i], b[i]]
            0 <= i < a.len() && i < b.len() && a.take(i) == b.take(i) && a[i] < b[i],
    decreases a.len(),
{
    if a.len() == 0 {
        assert(b.take(0) =~= a);
    } else if b.len() == 0 {
    } else {
        let a1 = a.drop_first();
        let b1 = b.drop_first();
        lemma_key_lt_lexicographic(a1, b1);
        if a[0] == b[0] {
            if a1.len() < b1.len() && b1.take(a1.len() as int) == a1 {
                assert forall|j: int| 0 <= j < a.len() implies #[trigger] b.take(a.len() as int)[j] == a[j] by {
                    if j > 0 {
                        assert(b1.take(a1.len() as int)[j - 1] == a1[j - 1]);
                    }
                }
                assert(b.take(a.len() as int) =~= a);
            }
            if a.len() < b.len() && b.take(a.len() as int) == a {
                assert(b1.take(a1.len() as int) =~= a1);
            }
            if exists|i: int| #![trigger a1[i], b1[i]] 0 <= i < a1.len() && i < b1.len() && a1.take(i) == b1.take(i) && a1[i] < b1[i] {
                let i = choose|i: int| #![trigger a1[i], b1[i]] 0 <= i < a1.len() && i < b1.len() && a1.take(i) == b1.take(i) && a1[i] < b1[i];
                assert forall|j: int| 0 <= j < i + 1 implies #[trigger] a.take(i + 1)[j] == b.take(i + 1)[j] by {
                    if j > 0 {
                        assert(a1.take(i)[j - 1] == b1.take(i)[j - 1]);
                    }
                }
                assert(a.take(i + 1) =~= b.take(i + 1));
                assert(a[i + 1] == a1[i] && b[i + 1] == b1[i]);
            }
            if exists|i: int| #![trigger a[i], b[i]] 0 <= i < a.len() && i < b.len() && a.take(i) == b.take(i) && a[i] < b[i] {
                let i = choose|i: int| #![trigger a[i], b[i]] 0 <= i < a.len() && i < b.len() && a.take(i) == b.take(i) && a[i] < b[i];
                assert(i > 0);
                assert(a1.take(i - 1) =~= b1.take(i - 1)) by {
                    assert forall|j: int| 0 <= j < i - 1 implies #[trigger] a1.take(i - 1)[j] == b1.take(i - 1)[j] by {
                        assert(a.take(i)[j + 1] == b.take(i)[j + 1]);
                    }
                }
                assert(a1[i - 1] == a[i] && b1[i - 1] == b[i]);
            }
        } else {
            if a.len() < b.len() && b.take(a.len() as int) == a {
                assert(b.take(a.len() as int)[0] == b[0]);
            }
            if a[0] < b[0] {
                assert(a.take(0) =~= b.take(0));
                assert(a[0] < b[0]);
            }
            if exists|i: int| #![trigger a[i], b[i]] 0 <= i < a.len() && i < b.len() && a.take(i) == b.take(i) && a[i] < b[i] {
                let i = choose|i: int| #![trigger a[i], b[i]] 0 <= i < a.len() && i < b.len() && a.take(i) == b.take(i) && a[i] < b[i];
                if i > 0 {
                    assert(a.take(i)[0] == b.take(i)[0]);
                }
            }
        }
    }
}

/// A proper prefix comes before every longer string that it begins: a key
/// sorts before the keys that extend it, as `String`'s `Ord` puts them.
pub proof fn lemma_key_lt_prefix(a: Seq<char>, b: Seq<char>)
    requires
        b.len() > 0,
    ensures
        key_lt(a, a + b),
{
    lemma_key_lt_lexicographic(a, a + b);
    assert((a + b).take(a.len() as int) =~= a);
}

} // verus!
