//! Character-level text utilities shared by the whole library: whitespace
//! trimming, line and field splitting, decimal and hexadecimal numbers,
//! and pattern replacement.  Every operation is stated over `Seq<char>`.
use vstd::prelude::*;

verus! {

// ---------------------------------------------------------------------------
// Building strings
// ---------------------------------------------------------------------------

/// Appends one character to a `String`: std's `String::push`, which
/// extends the string by exactly that character.
#[verifier::external_body]
pub fn push_char(s: &mut String, c: char)
    ensures
        final(s)@ == old(s)@.push(c),
{
    s.push(c);
}

/// The characters of `s`, in order.
pub fn chars_of(s: &str) -> (v: Vec<char>)
    ensures
        v@ == s@,
{
    let mut v: Vec<char> = Vec::new();
    for c in it: s.chars()
        invariant
            v@ == it.seq().take(it.index() as int),
    {
        v.push(c);
    }
    v
}

/// A `String` holding exactly the characters of `v`.
pub fn string_of(v: &Vec<char>) -> (s: String)
    ensures
        s@ == v@,
{
    let mut s = String::new();
    let n = v.len();
    let mut i: usize = 0;
    while i < n
        invariant
            n == v.len(),
            i <= n,
            s@ == v@.take(i as int),
        decreases n - i,
    {
        push_char(&mut s, v[i]);
        proof {
            assert(v@.take(i + 1) =~= v@.take(i as int).push(v@[i as int]));
        }
        i += 1;
    }
    proof {
        assert(v@.take(n as int) =~= v@);
    }
    s
}

/// Appends the characters of `s` to `v`.
pub fn push_str(v: &mut Vec<char>, s: &str)
    ensures
        final(v)@ == old(v)@ + s@,
{
    let ghost start = v@;
    for c in it: s.chars()
        invariant
            v@ == start + it.seq().take(it.index() as int),
    {
        v.push(c);
        proof {
            assert(start + it.seq().take(it.index() + 1) =~= (start + it.seq().take(
                it.index() as int,
            )).push(c));
        }
    }
}

/// Appends the characters of `s` to `v`.
pub fn push_all(v: &mut Vec<char>, s: &Vec<char>)
    ensures
        final(v)@ == old(v)@ + s@,
{
    let ghost start = v@;
    let n = s.len();
    let mut i: usize = 0;
    while i < n
        invariant
            n == s.len(),
            i <= n,
            v@ == start + s@.take(i as int),
        decreases n - i,
    {
        v.push(s[i]);
        proof {
            assert(start + s@.take(i + 1) =~= (start + s@.take(i as int)).push(s@[i as int]));
        }
        i += 1;
    }
    proof {
        assert(s@.take(n as int) =~= s@);
    }
}

/// A copy of `s[a..b]`.
pub fn copy_range(s: &Vec<char>, a: usize, b: usize) -> (r: Vec<char>)
    requires
        a <= b <= s.len(),
    ensures
        r@ == s@.subrange(a as int, b as int),
{
    let mut r: Vec<char> = Vec::new();
    let mut i = a;
    while i < b
        invariant
            a <= i <= b <= s.len(),
            r@ == s@.subrange(a as int, i as int),
        decreases b - i,
    {
        r.push(s[i]);
        proof {
            assert(s@.subrange(a as int, i + 1) =~= s@.subrange(a as int, i as int).push(
                s@[i as int],
            ));
        }
        i += 1;
    }
    r
}

/// Whether two character vectors hold the same characters.
pub fn chars_eq(a: &Vec<char>, b: &Vec<char>) -> (res: bool)
    ensures
        res == (a@ == b@),
{
    if a.len() != b.len() {
        return false;
    }
    let n = a.len();
    let mut i: usize = 0;
    while i < n
        invariant
            n == a.len() == b.len(),
            i <= n,
            forall|k: int| 0 <= k < i ==> a@[k] == b@[k],
        decreases n - i,
    {
        if a[i] != b[i] {
            return false;
        }
        i += 1;
    }
    proof {
        assert(a@ =~= b@);
    }
    true
}

/// Whether `a` holds exactly the characters of the literal `s`.
pub fn chars_eq_str(a: &Vec<char>, s: &str) -> (res: bool)
    ensures
        res == (a@ == s@),
{
    let b = chars_of(s);
    chars_eq(a, &b)
}

// ---------------------------------------------------------------------------
// Whitespace and trimming
// ---------------------------------------------------------------------------

/// Unicode `White_Space`, the set that `char::is_whitespace` and
/// `str::trim` use.
pub open spec fn is_ws(c: char) -> bool {
    let u = c as u32;
    ||| 0x09 <= u <= 0x0D
    ||| u == 0x20
    ||| u == 0x85
    ||| u == 0xA0
    ||| u == 0x1680
    ||| 0x2000 <= u <= 0x200A
    ||| u == 0x2028
    ||| u == 0x2029
    ||| u == 0x202F
    ||| u == 0x205F
    ||| u == 0x3000
}

/// `s` without its leading whitespace.
pub open spec fn trim_start(s: Seq<char>) -> Seq<char>
    decreases s.len(),
{
    if s.len() > 0 && is_ws(s[0]) {
        trim_start(s.drop_first())
    } else {
        s
    }
}

/// `s` without its trailing whitespace.
pub open spec fn trim_end(s: Seq<char>) -> Seq<char>
    decreases s.len(),
{
    if s.len() > 0 && is_ws(s.last()) {
        trim_end(s.drop_last())
    } else {
        s
    }
}

/// `s` without leading and trailing whitespace (`str::trim`).
pub open spec fn trim(s: Seq<char>) -> Seq<char> {
    trim_end(trim_start(s))
}

/// Whether `c` is Unicode whitespace.
pub fn is_whitespace(c: char) -> (res: bool)
    ensures
        res == is_ws(c),
{
    let u = c as u32;
    (0x09 <= u && u <= 0x0D) || u == 0x20 || u == 0x85 || u == 0xA0 || u == 0x1680 || (0x2000
        <= u && u <= 0x200A) || u == 0x2028 || u == 0x2029 || u == 0x202F || u == 0x205F || u
        == 0x3000
}

/// `s` with leading and trailing whitespace removed.
pub fn trim_chars(s: &Vec<char>) -> (r: Vec<char>)
    ensures
        r@ == trim(s@),
{
    let n = s.len();
    let mut i: usize = 0;
    proof {
        assert(s@.subrange(0, n as int) =~= s@);
    }
    while i < n && is_whitespace(s[i])
        invariant
            n == s.len(),
            i <= n,
            trim_start(s@) == trim_start(s@.subrange(i as int, n as int)),
        decreases n - i,
    {
        proof {
            assert(s@.subrange(i as int, n as int).drop_first() =~= s@.subrange(
                i + 1,
                n as int,
            ));
        }
        i += 1;
    }
    let mut j: usize = n;
    while j > i && is_whitespace(s[j - 1])
        invariant
            n == s.len(),
            i <= j <= n,
            trim_start(s@) == s@.subrange(i as int, n as int),
            trim(s@) == trim_end(s@.subrange(i as int, j as int)),
        decreases j,
    {
        proof {
            assert(s@.subrange(i as int, j as int).drop_last() =~= s@.subrange(
                i as int,
                j - 1,
            ));
        }
        j -= 1;
    }
    copy_range(s, i, j)
}

/// `s` with leading and trailing whitespace removed.
pub fn trim_str(s: &str) -> (r: Vec<char>)
    ensures
        r@ == trim(s@),
{
    let v = chars_of(s);
    trim_chars(&v)
}

// ---------------------------------------------------------------------------
// Lines
// ---------------------------------------------------------------------------

/// `l` without one trailing carriage return.
pub open spec fn strip_cr(l: Seq<char>) -> Seq<char> {
    if l.len() > 0 && l.last() == '\r' {
        l.drop_last()
    } else {
        l
    }
}

/// The lines of `s` (`str::lines`) when the current, unfinished line
/// already holds `cur`: a line ends at each `'\n'` and loses one `'\r'`
/// before it; a last line without `'\n'` counts only if it is not empty.
pub open spec fn lines_from(s: Seq<char>, cur: Seq<char>) -> Seq<Seq<char>>
    decreases s.len(),
{
    if s.len() == 0 {
        if cur.len() == 0 {
            seq![]
        } else {
            seq![cur]
        }
    } else if s[0] == '\n' {
        seq![strip_cr(cur)] + lines_from(s.drop_first(), seq![])
    } else {
        lines_from(s.drop_first(), cur.push(s[0]))
    }
}

/// The lines of `s`, as `str::lines` yields them.
pub open spec fn lines(s: Seq<char>) -> Seq<Seq<char>> {
    lines_from(s, seq![])
}

/// The lines of `s`.
pub fn split_lines(s: &Vec<char>) -> (res: Vec<Vec<char>>)
    ensures
        res@.len() == lines(s@).len(),
        forall|k: int| 0 <= k < res@.len() ==> #[trigger] res@[k]@ == lines(s@)[k],
{
    let mut out: Vec<Vec<char>> = Vec::new();
    let mut cur: Vec<char> = Vec::new();
    let ghost outv: Seq<Seq<char>> = seq![];
    let n = s.len();
    let mut i: usize = 0;
    proof {
        assert(s@.subrange(0, n as int) =~= s@);
        assert(outv + lines_from(s@, cur@) =~= lines_from(s@, cur@));
    }
    while i < n
        invariant
            n == s.len(),
            i <= n,
            out@.len() == outv.len(),
            forall|k: int| 0 <= k < out@.len() ==> #[trigger] out@[k]@ == outv[k],
            outv + lines_from(s@.subrange(i as int, n as int), cur@) == lines(s@),
        decreases n - i,
    {
        let c = s[i];
        let ghost rest = s@.subrange(i as int, n as int);
        proof {
            assert(rest.drop_first() =~= s@.subrange(i + 1, n as int));
        }
        if c == '\n' {
            let line = if cur.len() > 0 && cur[cur.len() - 1] == '\r' {
                let k = cur.len() - 1;
                copy_range(&cur, 0, k)
            } else {
                copy_range(&cur, 0, cur.len())
            };
            proof {
                assert(line@ =~= strip_cr(cur@));
                assert(outv.push(line@) + lines_from(s@.subrange(i + 1, n as int), seq![])
                    =~= outv + lines_from(rest, cur@));
                outv = outv.push(line@);
            }
            out.push(line);
            cur = Vec::new();
        } else {
            cur.push(c);
        }
        i += 1;
    }
    proof {
        assert(s@.subrange(n as int, n as int) =~= Seq::<char>::empty());
    }
    if cur.len() > 0 {
        proof {
            outv = outv.push(cur@);
        }
        out.push(cur);
    }
    proof {
        assert(outv =~= lines(s@));
    }
    out
}

// ---------------------------------------------------------------------------
// Searching and splitting
// ---------------------------------------------------------------------------

/// The position of the first `c` in `s`, if any.
pub open spec fn find(s: Seq<char>, c: char) -> Option<int>
    decreases s.len(),
{
    if s.len() == 0 {
        None
    } else if s[0] == c {
        Some(0)
    } else {
        match find(s.drop_first(), c) {
            Some(k) => Some(k + 1),
            None => None,
        }
    }
}

/// What `find` returns: the first position of `c`, or none when `c` does
/// not occur.
pub proof fn lemma_find(s: Seq<char>, c: char)
    ensures
        match find(s, c) {
            Some(i) => 0 <= i < s.len() && s[i] == c && forall|j: int|
                0 <= j < i ==> s[j] != c,
            None => forall|j: int| 0 <= j < s.len() ==> s[j] != c,
        },
    decreases s.len(),
{
    if s.len() > 0 && s[0] != c {
        lemma_find(s.drop_first(), c);
        match find(s.drop_first(), c) {
            Some(k) => {
                assert forall|j: int| 0 <= j < k + 1 implies s[j] != c by {
                    if j > 0 {
                        assert(s[j] == s.drop_first()[j - 1]);
                    }
                }
            },
            None => {
                assert forall|j: int| 0 <= j < s.len() implies s[j] != c by {
                    if j > 0 {
                        assert(s[j] == s.drop_first()[j - 1]);
                    }
                }
            },
        }
    }
}

/// The first position of `c` is determined by where `c` first occurs.
pub proof fn lemma_find_unique(s: Seq<char>, c: char, i: int)
    requires
        0 <= i < s.len(),
        s[i] == c,
        forall|j: int| 0 <= j < i ==> s[j] != c,
    ensures
        find(s, c) == Some(i),
{
    lemma_find(s, c);
    match find(s, c) {
        Some(k) => {
            if k < i {
                assert(s[k] != c);
            }
            if k > i {
                assert(s[i] != c);
            }
        },
        None => {
            assert(s[i] != c);
        },
    }
}

/// `s` split at the first `c` (`str::split_once`).
pub open spec fn split_once(s: Seq<char>, c: char) -> Option<(Seq<char>, Seq<char>)> {
    match find(s, c) {
        Some(i) => Some((s.take(i), s.skip(i + 1))),
        None => None,
    }
}

/// The position of the first `c` in `s`.
pub fn find_char(s: &Vec<char>, c: char) -> (res: Option<usize>)
    ensures
        match res {
            Some(i) => find(s@, c) == Some(i as int),
            None => find(s@, c) is None,
        },
{
    let n = s.len();
    let mut i: usize = 0;
    while i < n
        invariant
            n == s.len(),
            i <= n,
            forall|j: int| 0 <= j < i ==> s@[j] != c,
        decreases n - i,
    {
        if s[i] == c {
            proof {
                lemma_find_unique(s@, c, i as int);
            }
            return Some(i);
        }
        i += 1;
    }
    proof {
        lemma_find(s@, c);
        match find(s@, c) {
            Some(k) => {
                assert(s@[k] != c);
            },
            None => {},
        }
    }
    None
}

/// `s` split at its first `c`.
pub fn split_once_chars(s: &Vec<char>, c: char) -> (res: Option<(Vec<char>, Vec<char>)>)
    ensures
        match res {
            Some((a, b)) => split_once(s@, c) == Some((a@, b@)),
            None => split_once(s@, c) is None,
        },
{
    let n = s.len();
    match find_char(s, c) {
        Some(i) => {
            proof {
                lemma_find(s@, c);
            }
            let a = copy_range(s, 0, i);
            let b = copy_range(s, i + 1, n);
            proof {
                assert(a@ =~= s@.take(i as int));
                assert(b@ =~= s@.skip(i + 1));
            }
            Some((a, b))
        },
        None => None,
    }
}

/// The pieces of `s` between the separators `c` (`str::split`), when the
/// current piece already holds `cur`.
pub open spec fn split_from(s: Seq<char>, c: char, cur: Seq<char>) -> Seq<Seq<char>>
    decreases s.len(),
{
    if s.len() == 0 {
        seq![cur]
    } else if s[0] == c {
        seq![cur] + split_from(s.drop_first(), c, seq![])
    } else {
        split_from(s.drop_first(), c, cur.push(s[0]))
    }
}

/// The pieces of `s` between the separators `c`: one more than there are
/// separators, empty pieces included.
pub open spec fn split(s: Seq<char>, c: char) -> Seq<Seq<char>> {
    split_from(s, c, seq![])
}

/// The trimmed pieces of `segs` that are not empty, in order.
pub open spec fn trimmed_nonempty(segs: Seq<Seq<char>>) -> Seq<Seq<char>>
    decreases segs.len(),
{
    if segs.len() == 0 {
        seq![]
    } else {
        let t = trim(segs.last());
        if t.len() > 0 {
            trimmed_nonempty(segs.drop_last()).push(t)
        } else {
            trimmed_nonempty(segs.drop_last())
        }
    }
}

/// A comma-separated list: its pieces, trimmed, empty ones left out.
pub open spec fn comma_list(s: Seq<char>) -> Seq<Seq<char>> {
    trimmed_nonempty(split(s, ','))
}

/// The pieces of `s` between the separators `c`.
pub fn split_chars(s: &Vec<char>, c: char) -> (res: Vec<Vec<char>>)
    ensures
        res@.len() == split(s@, c).len(),
        forall|k: int| 0 <= k < res@.len() ==> #[trigger] res@[k]@ == split(s@, c)[k],
{
    let mut out: Vec<Vec<char>> = Vec::new();
    let mut cur: Vec<char> = Vec::new();
    let ghost outv: Seq<Seq<char>> = seq![];
    let n = s.len();
    let mut i: usize = 0;
    proof {
        assert(s@.subrange(0, n as int) =~= s@);
        assert(outv + split_from(s@, c, cur@) =~= split_from(s@, c, cur@));
    }
    while i < n
        invariant
            n == s.len(),
            i <= n,
            out@.len() == outv.len(),
            forall|k: int| 0 <= k < out@.len() ==> #[trigger] out@[k]@ == outv[k],
            outv + split_from(s@.subrange(i as int, n as int), c, cur@) == split(s@, c),
        decreases n - i,
    {
        let x = s[i];
        let ghost rest = s@.subrange(i as int, n as int);
        proof {
            assert(rest.drop_first() =~= s@.subrange(i + 1, n as int));
        }
        if x == c {
            proof {
                assert(outv.push(cur@) + split_from(s@.subrange(i + 1, n as int), c, seq![])
                    =~= outv + split_from(rest, c, cur@));
                outv = outv.push(cur@);
            }
            out.push(cur);
            cur = Vec::new();
        } else {
            cur.push(x);
        }
        i += 1;
    }
    proof {
        assert(s@.subrange(n as int, n as int) =~= Seq::<char>::empty());
        outv = outv.push(cur@);
    }
    out.push(cur);
    proof {
        assert(outv =~= split(s@, c));
    }
    out
}

/// The comma-separated list in `s`, as `String`s.
pub fn comma_list_of(s: &Vec<char>) -> (res: Vec<String>)
    ensures
        res@.len() == comma_list(s@).len(),
        forall|k: int| 0 <= k < res@.len() ==> #[trigger] res@[k]@ == comma_list(s@)[k],
{
    let segs = split_chars(s, ',');
    let ghost segv = split(s@, ',');
    let mut out: Vec<String> = Vec::new();
    let n = segs.len();
    let mut i: usize = 0;
    while i < n
        invariant
            n == segs@.len() == segv.len(),
            forall|k: int| 0 <= k < n ==> #[trigger] segs@[k]@ == segv[k],
            segv == split(s@, ','),
            i <= n,
            out@.len() == trimmed_nonempty(segv.take(i as int)).len(),
            forall|k: int|
                0 <= k < out@.len() ==> #[trigger] out@[k]@ == trimmed_nonempty(
                    segv.take(i as int),
                )[k],
        decreases n - i,
    {
        let t = trim_chars(&segs[i]);
        proof {
            assert(segv.take(i + 1).drop_last() =~= segv.take(i as int));
            assert(segv.take(i + 1).last() == segv[i as int]);
        }
        if t.len() > 0 {
            let ts = string_of(&t);
            out.push(ts);
        }
        i += 1;
    }
    proof {
        assert(segv.take(n as int) =~= segv);
    }
    out
}

// ---------------------------------------------------------------------------
// Numbers
// ---------------------------------------------------------------------------

/// Whether `c` is an ASCII decimal digit.
pub open spec fn is_digit(c: char) -> bool {
    '0' <= c && c <= '9'
}

/// The value of the decimal digit `c`.
pub open spec fn digit_value(c: char) -> nat {
    (c as int - '0' as int) as nat
}

/// The value of the decimal numeral `s`.
pub open spec fn digits_value(s: Seq<char>) -> nat
    decreases s.len(),
{
    if s.len() == 0 {
        0
    } else {
        digits_value(s.drop_last()) * 10 + digit_value(s.last())
    }
}

/// Whether every character of `s` is a decimal digit.
pub open spec fn all_digits(s: Seq<char>) -> bool {
    forall|i: int| 0 <= i < s.len() ==> is_digit(#[trigger] s[i])
}

/// What `u64::from_str` and `usize::from_str` accept, with `max` the type's
/// largest value: an optional `'+'`, then one or more digits whose value is
/// at most `max`.
pub open spec fn parse_unsigned(s: Seq<char>, max: nat) -> Option<nat> {
    let d = if s.len() > 0 && s[0] == '+' {
        s.drop_first()
    } else {
        s
    };
    if d.len() > 0 && all_digits(d) && digits_value(d) <= max {
        Some(digits_value(d))
    } else {
        None
    }
}

/// A longer numeral is worth at least as much as its prefix.
pub proof fn lemma_digits_value_prefix(s: Seq<char>, i: int)
    requires
        0 <= i <= s.len(),
    ensures
        digits_value(s.take(i)) <= digits_value(s),
    decreases s.len() - i,
{
    if i < s.len() {
        lemma_digits_value_prefix(s, i + 1);
        assert(s.take(i + 1).drop_last() =~= s.take(i));
    } else {
        assert(s.take(i) =~= s);
    }
}

/// The number written in `s`, when it is an unsigned numeral whose value
/// is at most `max`.
pub fn parse_u64(s: &Vec<char>, max: u64) -> (res: Option<u64>)
    ensures
        match res {
            Some(v) => parse_unsigned(s@, max as nat) == Some(v as nat),
            None => parse_unsigned(s@, max as nat) is None,
        },
{
    let n = s.len();
    let start: usize = if n > 0 && s[0] == '+' {
        1
    } else {
        0
    };
    let ghost d = s@.subrange(start as int, n as int);
    proof {
        if start == 1 {
            assert(d =~= s@.drop_first());
        } else {
            assert(d =~= s@);
        }
    }
    if start == n {
        return None;
    }
    let mut v: u64 = 0;
    let mut i = start;
    proof {
        assert(d.take(0) =~= Seq::<char>::empty());
    }
    while i < n
        invariant
            n == s.len(),
            start <= i <= n,
            start < n,
            d == s@.subrange(start as int, n as int),
            d == (if s@.len() > 0 && s@[0] == '+' {
                s@.drop_first()
            } else {
                s@
            }),
            all_digits(d.take(i - start)),
            v as nat == digits_value(d.take(i - start)),
            v <= max,
        decreases n - i,
    {
        let c = s[i];
        if !('0' <= c && c <= '9') {
            proof {
                assert(d[i - start] == c);
                assert(!is_digit(d[i - start]));
            }
            return None;
        }
        let dv = (c as u32 - '0' as u32) as u64;
        proof {
            assert(d.take(i + 1 - start).drop_last() =~= d.take(i - start));
            assert(d.take(i + 1 - start).last() == c);
            assert forall|k: int| 0 <= k < i + 1 - start implies is_digit(
                #[trigger] d.take(i + 1 - start)[k],
            ) by {
                if k < i - start {
                    assert(d.take(i + 1 - start)[k] == d.take(i - start)[k]);
                }
            }
        }
        let next = match v.checked_mul(10) {
            Some(t) => t.checked_add(dv),
            None => None,
        };
        match next {
            Some(w) if w <= max => {
                v = w;
            },
            _ => {
                proof {
                    lemma_digits_value_prefix(d, i + 1 - start);
                    assert(digits_value(d.take(i + 1 - start)) > max);
                }
                return None;
            },
        }
        i += 1;
    }
    proof {
        assert(d.take(n - start) =~= d);
    }
    Some(v)
}

/// The decimal digit whose value is `d`.
pub open spec fn digit_char(d: nat) -> char {
    ('0' as u32 + d) as char
}

/// `n` written in decimal, without leading zeros.
pub open spec fn decimal(n: nat) -> Seq<char>
    decreases n,
{
    if n < 10 {
        seq![digit_char(n)]
    } else {
        decimal(n / 10).push(digit_char(n % 10))
    }
}

/// `'0'` repeated `k` times.
pub open spec fn zeros(k: nat) -> Seq<char> {
    Seq::new(k, |i: int| '0')
}

/// `s` with zeros in front up to width `w` (the `{:0w}` format).
pub open spec fn pad_zeros(s: Seq<char>, w: nat) -> Seq<char> {
    if s.len() < w {
        zeros((w - s.len()) as nat) + s
    } else {
        s
    }
}

/// Appends `n` in decimal to `out`.
pub fn push_decimal(out: &mut Vec<char>, n: u64)
    ensures
        final(out)@ == old(out)@ + decimal(n as nat),
    decreases n,
{
    if n >= 10 {
        push_decimal(out, n / 10);
    }
    let d = (n % 10) as u32;
    let c = char_from_digit(d);
    out.push(c);
    proof {
        if n >= 10 {
            assert(old(out)@ + decimal(n as nat) =~= old(out)@ + decimal((n / 10) as nat) + seq![
                c,
            ]);
        } else {
            assert(old(out)@ + decimal(n as nat) =~= old(out)@ + seq![c]);
        }
    }
}

/// The character of the decimal digit `d`.
pub fn char_from_digit(d: u32) -> (c: char)
    requires
        d < 10,
    ensures
        c == digit_char(d as nat),
        is_digit(c),
{
    if d == 0 {
        '0'
    } else if d == 1 {
        '1'
    } else if d == 2 {
        '2'
    } else if d == 3 {
        '3'
    } else if d == 4 {
        '4'
    } else if d == 5 {
        '5'
    } else if d == 6 {
        '6'
    } else if d == 7 {
        '7'
    } else if d == 8 {
        '8'
    } else {
        '9'
    }
}

/// `n` in decimal.
pub fn decimal_chars(n: u64) -> (r: Vec<char>)
    ensures
        r@ == decimal(n as nat),
{
    let mut r: Vec<char> = Vec::new();
    push_decimal(&mut r, n);
    proof {
        assert(r@ =~= decimal(n as nat));
    }
    r
}

/// Appends `n` in decimal, padded with zeros to width `w`.
pub fn push_padded(out: &mut Vec<char>, n: u64, w: usize)
    ensures
        final(out)@ == old(out)@ + pad_zeros(decimal(n as nat), w as nat),
{
    let digits = decimal_chars(n);
    let ghost start = out@;
    if digits.len() < w {
        let k = w - digits.len();
        let mut i: usize = 0;
        while i < k
            invariant
                i <= k,
                out@ == start + zeros(i as nat),
            decreases k - i,
        {
            out.push('0');
            proof {
                assert(start + zeros((i + 1) as nat) =~= (start + zeros(i as nat)).push('0'));
            }
            i += 1;
        }
    }
    push_all(out, &digits);
    proof {
        assert(final(out)@ =~= start + pad_zeros(decimal(n as nat), w as nat));
    }
}

// ---------------------------------------------------------------------------
// Replacing
// ---------------------------------------------------------------------------

/// Whether `s` begins with `p`.
pub open spec fn starts_with(s: Seq<char>, p: Seq<char>) -> bool {
    p.len() <= s.len() && s.take(p.len() as int) == p
}

/// Every occurrence of `p` in `s` replaced by `r`, matches taken left to
/// right without overlap (`str::replace` with a non-empty pattern).
pub open spec fn replace(s: Seq<char>, p: Seq<char>, r: Seq<char>) -> Seq<char>
    decreases s.len(),
{
    if s.len() == 0 {
        seq![]
    } else if p.len() > 0 && starts_with(s, p) {
        r + replace(s.skip(p.len() as int), p, r)
    } else {
        seq![s[0]] + replace(s.drop_first(), p, r)
    }
}

/// The first occurrence of `p` in `s` replaced by `r`
/// (`str::replacen(p, r, 1)` with a non-empty pattern).
pub open spec fn replace_first(s: Seq<char>, p: Seq<char>, r: Seq<char>) -> Seq<char>
    decreases s.len(),
{
    if s.len() == 0 {
        seq![]
    } else if p.len() > 0 && starts_with(s, p) {
        r + s.skip(p.len() as int)
    } else {
        seq![s[0]] + replace_first(s.drop_first(), p, r)
    }
}

/// Whether `p` occurs in `s` at position `i`.
fn matches_at(s: &Vec<char>, i: usize, p: &Vec<char>) -> (res: bool)
    requires
        i <= s.len(),
    ensures
        res == starts_with(s@.subrange(i as int, s@.len() as int), p@),
{
    let ghost rest = s@.subrange(i as int, s@.len() as int);
    if p.len() > s.len() - i {
        return false;
    }
    let m = p.len();
    let mut k: usize = 0;
    while k < m
        invariant
            m == p.len(),
            i + m <= s.len(),
            rest == s@.subrange(i as int, s@.len() as int),
            k <= m,
            forall|j: int| 0 <= j < k ==> s@[i + j] == p@[j],
        decreases m - k,
    {
        if s[i + k] != p[k] {
            proof {
                assert(rest.take(m as int)[k as int] == s@[i + k]);
            }
            return false;
        }
        k += 1;
    }
    proof {
        assert(rest.take(m as int) =~= p@);
    }
    true
}

/// `s` with every occurrence of `p` replaced by `r`.
pub fn replace_chars(s: &Vec<char>, p: &Vec<char>, r: &Vec<char>) -> (res: Vec<char>)
    requires
        p@.len() > 0,
    ensures
        res@ == replace(s@, p@, r@),
{
    let mut out: Vec<char> = Vec::new();
    let n = s.len();
    let mut i: usize = 0;
    proof {
        assert(s@.subrange(0, n as int) =~= s@);
        assert(out@ + replace(s@, p@, r@) =~= replace(s@, p@, r@));
        assert(out@ + replace_first(s@, p@, r@) =~= replace_first(s@, p@, r@));
    }
    while i < n
        invariant
            n == s.len(),
            p@.len() > 0,
            i <= n,
            out@ + replace(s@.subrange(i as int, n as int), p@, r@) == replace(s@, p@, r@),
        decreases n - i,
    {
        let ghost rest = s@.subrange(i as int, n as int);
        if matches_at(s, i, p) {
            proof {
                assert(rest.skip(p@.len() as int) =~= s@.subrange(i + p@.len(), n as int));
                assert(out@ + r@ + replace(s@.subrange(i + p@.len(), n as int), p@, r@) =~= out@
                    + replace(rest, p@, r@));
            }
            push_all(&mut out, r);
            i += p.len();
        } else {
            proof {
                assert(rest.drop_first() =~= s@.subrange(i + 1, n as int));
                assert(out@.push(s@[i as int]) + replace(s@.subrange(i + 1, n as int), p@, r@)
                    =~= out@ + replace(rest, p@, r@));
            }
            out.push(s[i]);
            i += 1;
        }
    }
    proof {
        assert(s@.subrange(n as int, n as int) =~= Seq::<char>::empty());
        assert(out@ + Seq::<char>::empty() =~= out@);
    }
    out
}

/// `s` with the first occurrence of `p` replaced by `r`.
pub fn replace_first_chars(s: &Vec<char>, p: &Vec<char>, r: &Vec<char>) -> (res: Vec<char>)
    requires
        p@.len() > 0,
    ensures
        res@ == replace_first(s@, p@, r@),
{
    let mut out: Vec<char> = Vec::new();
    let n = s.len();
    let mut i: usize = 0;
    proof {
        assert(s@.subrange(0, n as int) =~= s@);
        assert(out@ + replace(s@, p@, r@) =~= replace(s@, p@, r@));
        assert(out@ + replace_first(s@, p@, r@) =~= replace_first(s@, p@, r@));
    }
    while i < n
        invariant
            n == s.len(),
            p@.len() > 0,
            i <= n,
            out@ + replace_first(s@.subrange(i as int, n as int), p@, r@) == replace_first(
                s@,
                p@,
                r@,
            ),
        decreases n - i,
    {
        let ghost rest = s@.subrange(i as int, n as int);
        if matches_at(s, i, p) {
            let tail = copy_range(s, i + p.len(), n);
            let ghost before = out@;
            proof {
                assert(rest.skip(p@.len() as int) =~= tail@);
                assert(before + r@ + tail@ =~= before + replace_first(rest, p@, r@));
            }
            push_all(&mut out, r);
            push_all(&mut out, &tail);
            return out;
        } else {
            proof {
                assert(rest.drop_first() =~= s@.subrange(i + 1, n as int));
                assert(out@.push(s@[i as int]) + replace_first(
                    s@.subrange(i + 1, n as int),
                    p@,
                    r@,
                ) =~= out@ + replace_first(rest, p@, r@));
            }
            out.push(s[i]);
            i += 1;
        }
    }
    proof {
        assert(s@.subrange(n as int, n as int) =~= Seq::<char>::empty());
        assert(out@ + Seq::<char>::empty() =~= out@);
    }
    out
}

// ---------------------------------------------------------------------------
// Facts about trimming and lines
// ---------------------------------------------------------------------------

/// Whether `c` does not occur in `s`.
pub open spec fn lacks(s: Seq<char>, c: char) -> bool {
    forall|i: int| 0 <= i < s.len() ==> #[trigger] s[i] != c
}

/// Trimming adds no character.
pub proof fn lemma_trim_lacks(s: Seq<char>, c: char)
    requires
        lacks(s, c),
    ensures
        lacks(trim_start(s), c),
        lacks(trim_end(s), c),
        lacks(trim(s), c),
    decreases s.len(),
{
    if s.len() > 0 {
        assert(lacks(s.drop_first(), c)) by {
            assert forall|i: int| 0 <= i < s.drop_first().len() implies #[trigger] s.drop_first()[i]
                != c by {
                assert(s.drop_first()[i] == s[i + 1]);
            }
        }
        assert(lacks(s.drop_last(), c)) by {
            assert forall|i: int| 0 <= i < s.drop_last().len() implies #[trigger] s.drop_last()[i]
                != c by {
                assert(s.drop_last()[i] == s[i]);
            }
        }
        lemma_trim_lacks(s.drop_first(), c);
        lemma_trim_lacks(s.drop_last(), c);
        lemma_trim_lacks_end(trim_start(s), c);
    }
}

proof fn lemma_trim_lacks_end(s: Seq<char>, c: char)
    requires
        lacks(s, c),
    ensures
        lacks(trim_end(s), c),
    decreases s.len(),
{
    if s.len() > 0 {
        assert(lacks(s.drop_last(), c)) by {
            assert forall|i: int| 0 <= i < s.drop_last().len() implies #[trigger] s.drop_last()[i]
                != c by {
                assert(s.drop_last()[i] == s[i]);
            }
        }
        lemma_trim_lacks_end(s.drop_last(), c);
    }
}

/// What is left after trimming the start begins with no whitespace.
pub proof fn lemma_trim_start_head(s: Seq<char>)
    ensures
        trim_start(s).len() == 0 || !is_ws(trim_start(s)[0]),
        trim_start(trim_start(s)) == trim_start(s),
    decreases s.len(),
{
    if s.len() > 0 && is_ws(s[0]) {
        lemma_trim_start_head(s.drop_first());
    }
}

/// What is left after trimming the end is a prefix ending in no
/// whitespace.
pub proof fn lemma_trim_end_tail(s: Seq<char>)
    ensures
        trim_end(s).len() <= s.len(),
        trim_end(s) == s.take(trim_end(s).len() as int),
        trim_end(s).len() == 0 || !is_ws(trim_end(s).last()),
    decreases s.len(),
{
    if s.len() > 0 && is_ws(s.last()) {
        lemma_trim_end_tail(s.drop_last());
        assert(s.drop_last().take(trim_end(s).len() as int) =~= s.take(
            trim_end(s).len() as int,
        ));
    } else {
        assert(s.take(s.len() as int) =~= s);
    }
}

/// Trimming twice is trimming once.
pub proof fn lemma_trim_idempotent(s: Seq<char>)
    ensures
        trim(trim(s)) == trim(s),
{
    let u = trim_start(s);
    let v = trim_end(u);
    lemma_trim_start_head(s);
    lemma_trim_end_tail(u);
    if v.len() > 0 {
        assert(v[0] == u[0]);
        assert(trim_start(v) == v);
    }
}

/// Text that starts with no whitespace keeps what follows it untouched.
pub proof fn lemma_trim_start_concat(a: Seq<char>, b: Seq<char>)
    requires
        b.len() > 0,
        !is_ws(b[0]),
    ensures
        trim_start(a + b) == trim_start(a) + b,
    decreases a.len(),
{
    if a.len() == 0 {
        assert(a + b =~= b);
        assert(trim_start(a) + b =~= b);
    } else if is_ws(a[0]) {
        assert((a + b).drop_first() =~= a.drop_first() + b);
        lemma_trim_start_concat(a.drop_first(), b);
    } else {
        assert((a + b)[0] == a[0]);
    }
}

/// Text that ends with no whitespace keeps what precedes it untouched.
pub proof fn lemma_trim_end_concat(a: Seq<char>, b: Seq<char>)
    requires
        a.len() > 0,
        !is_ws(a.last()),
    ensures
        trim_end(a + b) == a + trim_end(b),
    decreases b.len(),
{
    if b.len() == 0 {
        assert(a + b =~= a);
        assert(a + trim_end(b) =~= a);
    } else if is_ws(b.last()) {
        assert((a + b).drop_last() =~= a + b.drop_last());
        lemma_trim_end_concat(a, b.drop_last());
    } else {
        assert((a + b).last() == b.last());
    }
}

/// Once the start keeps something, more text after it is kept as well.
proof fn lemma_trim_start_extend(a: Seq<char>, c: char)
    requires
        trim_start(a).len() > 0,
    ensures
        trim_start(a.push(c)) == trim_start(a).push(c),
    decreases a.len(),
{
    if is_ws(a[0]) {
        assert(a.push(c).drop_first() =~= a.drop_first().push(c));
        lemma_trim_start_extend(a.drop_first(), c);
    }
}

/// When all of `a` is whitespace, nothing of it is kept.
proof fn lemma_trim_start_empty_extend(a: Seq<char>, c: char)
    requires
        trim_start(a).len() == 0,
    ensures
        trim_start(a.push(c)) == trim_start(seq![c]),
    decreases a.len(),
{
    if a.len() > 0 {
        assert(a.push(c).drop_first() =~= a.drop_first().push(c));
        lemma_trim_start_empty_extend(a.drop_first(), c);
    } else {
        assert(a.push(c) =~= seq![c]);
    }
}

/// A trailing whitespace character does not change the trimmed text.
pub proof fn lemma_trim_drop_ws_last(t: Seq<char>)
    requires
        t.len() > 0,
        is_ws(t.last()),
    ensures
        trim(t) == trim(t.drop_last()),
{
    let a = t.drop_last();
    let c = t.last();
    assert(a.push(c) =~= t);
    if trim_start(a).len() > 0 {
        lemma_trim_start_extend(a, c);
        assert(trim_start(t).drop_last() =~= trim_start(a));
    } else {
        lemma_trim_start_empty_extend(a, c);
        assert(seq![c].drop_first() =~= Seq::<char>::empty());
        assert(trim_start(seq![c]) == trim_start(Seq::<char>::empty()));
    }
}

/// Trimming the end first does not change the trimmed text.
pub proof fn lemma_trim_after_trim_end(t: Seq<char>)
    ensures
        trim(trim_end(t)) == trim(t),
    decreases t.len(),
{
    if t.len() > 0 && is_ws(t.last()) {
        lemma_trim_after_trim_end(t.drop_last());
        lemma_trim_drop_ws_last(t);
    }
}

/// No line of a text holds a line break.
pub proof fn lemma_lines_lack_newline(s: Seq<char>, cur: Seq<char>)
    requires
        lacks(cur, '\n'),
    ensures
        forall|k: int| 0 <= k < lines_from(s, cur).len() ==> lacks(#[trigger] lines_from(s, cur)[k], '\n'),
    decreases s.len(),
{
    if s.len() == 0 {
        if cur.len() > 0 {
            assert(lines_from(s, cur) =~= seq![cur]);
        }
    } else if s[0] == '\n' {
        lemma_lines_lack_newline(s.drop_first(), seq![]);
        let l = strip_cr(cur);
        assert(lacks(l, '\n')) by {
            assert forall|i: int| 0 <= i < l.len() implies #[trigger] l[i] != '\n' by {
                assert(l[i] == cur[i]);
            }
        }
        let rest = lines_from(s.drop_first(), seq![]);
        assert(lines_from(s, cur) == seq![l] + rest);
        assert forall|k: int| 0 <= k < lines_from(s, cur).len() implies lacks(
            #[trigger] lines_from(s, cur)[k],
            '\n',
        ) by {
            if k > 0 {
                assert(lines_from(s, cur)[k] == rest[k - 1]);
            } else {
                assert(lines_from(s, cur)[k] == l);
            }
        }
    } else {
        let c2 = cur.push(s[0]);
        assert(lacks(c2, '\n')) by {
            assert forall|i: int| 0 <= i < c2.len() implies #[trigger] c2[i] != '\n' by {
                if i < cur.len() {
                    assert(c2[i] == cur[i]);
                }
            }
        }
        lemma_lines_lack_newline(s.drop_first(), c2);
        assert(lines_from(s, cur) == lines_from(s.drop_first(), c2));
    }
}

/// The lines of a text made of a part that ends a line and a rest.
pub proof fn lemma_lines_concat(a: Seq<char>, b: Seq<char>, cur: Seq<char>)
    requires
        a.len() > 0,
        a.last() == '\n',
    ensures
        lines_from(a + b, cur) == lines_from(a, cur) + lines_from(b, seq![]),
    decreases a.len(),
{
    assert((a + b).drop_first() =~= a.drop_first() + b);
    if a.len() == 1 {
        assert(a.drop_first() + b =~= b);
        assert(lines_from(a.drop_first(), seq![]) =~= Seq::<Seq<char>>::empty());
        assert(lines_from(a, cur) =~= seq![strip_cr(cur)]);
    } else if a[0] == '\n' {
        lemma_lines_concat(a.drop_first(), b, seq![]);
        assert(lines_from(a + b, cur) =~= lines_from(a, cur) + lines_from(b, seq![]));
    } else {
        lemma_lines_concat(a.drop_first(), b, cur.push(a[0]));
    }
}

/// A single line followed by a line break.
pub proof fn lemma_single_line(x: Seq<char>, cur: Seq<char>)
    requires
        lacks(x, '\n'),
    ensures
        lines_from(x.push('\n'), cur) == seq![strip_cr(cur + x)],
    decreases x.len(),
{
    if x.len() == 0 {
        assert(cur + x =~= cur);
        assert(seq!['\n'].drop_first() =~= Seq::<char>::empty());
        assert(x.push('\n') =~= seq!['\n']);
        assert(lines_from(Seq::<char>::empty(), seq![]) =~= Seq::<Seq<char>>::empty());
        assert(lines_from(seq!['\n'], cur) == seq![strip_cr(cur)] + lines_from(
            seq!['\n'].drop_first(),
            seq![],
        ));
        assert(lines_from(x.push('\n'), cur) =~= seq![strip_cr(cur)]);
    } else {
        assert(x[0] != '\n');
        assert(x.push('\n').drop_first() =~= x.drop_first().push('\n'));
        assert(lacks(x.drop_first(), '\n')) by {
            assert forall|i: int| 0 <= i < x.drop_first().len() implies #[trigger] x.drop_first()[i]
                != '\n' by {
                assert(x.drop_first()[i] == x[i + 1]);
            }
        }
        lemma_single_line(x.drop_first(), cur.push(x[0]));
        assert(cur.push(x[0]) + x.drop_first() =~= cur + x);
    }
}

/// Every entry of a comma-separated list is non-empty and already
/// trimmed.
pub proof fn comma_list_entries_are_trimmed(s: Seq<char>)
    ensures
        forall|k: int| 0 <= k < comma_list(s).len() ==> (#[trigger] comma_list(s)[k]).len() > 0
            && trim(comma_list(s)[k]) == comma_list(s)[k],
{
    lemma_trimmed_nonempty(split(s, ','));
}

proof fn lemma_trimmed_nonempty(segs: Seq<Seq<char>>)
    ensures
        forall|k: int| 0 <= k < trimmed_nonempty(segs).len() ==> (#[trigger] trimmed_nonempty(
            segs,
        )[k]).len() > 0 && trim(trimmed_nonempty(segs)[k]) == trimmed_nonempty(segs)[k],
    decreases segs.len(),
{
    if segs.len() > 0 {
        lemma_trimmed_nonempty(segs.drop_last());
        let prev = trimmed_nonempty(segs.drop_last());
        let t = trim(segs.last());
        lemma_trim_idempotent(segs.last());
        assert forall|k: int| 0 <= k < trimmed_nonempty(segs).len() implies (
        #[trigger] trimmed_nonempty(segs)[k]).len() > 0 && trim(trimmed_nonempty(segs)[k])
            == trimmed_nonempty(segs)[k] by {
            if k < prev.len() {
                assert(trimmed_nonempty(segs)[k] == prev[k]);
            }
        }
    }
}

/// The lines `ls`, each followed by a line break.
pub open spec fn text_of_lines(ls: Seq<Seq<char>>) -> Seq<char>
    decreases ls.len(),
{
    if ls.len() == 0 {
        seq![]
    } else {
        text_of_lines(ls.drop_last()) + ls.last().push('\n')
    }
}

/// The lines of `ls` written out with a line break after each, then
/// read back, are `ls` again, when no line holds a line break or ends
/// with `'\r'`.
pub proof fn lemma_lines_of_text(ls: Seq<Seq<char>>)
    requires
        forall|k: int| 0 <= k < ls.len() ==> lacks(#[trigger] ls[k], '\n') && strip_cr(ls[k]) == ls[k],
    ensures
        lines(text_of_lines(ls)) == ls,
    decreases ls.len(),
{
    if ls.len() > 0 {
        let init = ls.drop_last();
        let l = ls.last();
        assert(ls[ls.len() - 1] == l);
        assert forall|k: int| 0 <= k < init.len() implies lacks(#[trigger] init[k], '\n')
            && strip_cr(init[k]) == init[k] by {
            assert(init[k] == ls[k]);
        }
        lemma_lines_of_text(init);
        lemma_single_line(l, seq![]);
        assert(Seq::<char>::empty() + l =~= l);
        let t = text_of_lines(init);
        if init.len() > 0 {
            assert(t.last() == init.last().push('\n').last());
            lemma_lines_concat(t, l.push('\n'), seq![]);
        } else {
            assert(t =~= Seq::<char>::empty());
            assert(t + l.push('\n') =~= l.push('\n'));
        }
        assert(lines(text_of_lines(ls)) =~= ls);
    }
}

/// Text without the separator `c` is one piece, joined to the piece that
/// was begun.
proof fn lemma_split_plain(b: Seq<char>, c: char, cur: Seq<char>)
    requires
        lacks(b, c),
    ensures
        split_from(b, c, cur) == seq![cur + b],
    decreases b.len(),
{
    if b.len() == 0 {
        assert(cur + b =~= cur);
    } else {
        assert(b[0] != c);
        assert(lacks(b.drop_first(), c)) by {
            assert forall|i: int| 0 <= i < b.drop_first().len() implies #[trigger] b.drop_first()[i]
                != c by {
                assert(b.drop_first()[i] == b[i + 1]);
            }
        }
        lemma_split_plain(b.drop_first(), c, cur.push(b[0]));
        assert(cur.push(b[0]) + b.drop_first() =~= cur + b);
    }
}

/// The first separator `c` ends the piece that was begun.
proof fn lemma_split_at(a: Seq<char>, b: Seq<char>, c: char, cur: Seq<char>)
    requires
        lacks(a, c),
    ensures
        split_from(a + seq![c] + b, c, cur) == seq![cur + a] + split_from(b, c, seq![]),
    decreases a.len(),
{
    let s = a + seq![c] + b;
    if a.len() == 0 {
        assert(s[0] == c);
        assert(s.drop_first() =~= b);
        assert(cur + a =~= cur);
    } else {
        assert(s[0] == a[0]);
        assert(s.drop_first() =~= a.drop_first() + seq![c] + b);
        assert(lacks(a.drop_first(), c)) by {
            assert forall|i: int| 0 <= i < a.drop_first().len() implies #[trigger] a.drop_first()[i]
                != c by {
                assert(a.drop_first()[i] == a[i + 1]);
            }
        }
        lemma_split_at(a.drop_first(), b, c, cur.push(a[0]));
        assert(cur.push(a[0]) + a.drop_first() =~= cur + a);
    }
}

/// Two entries without commas, already trimmed and not empty, joined by
/// a comma make the list of the two.
pub proof fn lemma_comma_pair(a: Seq<char>, b: Seq<char>)
    requires
        lacks(a, ','),
        lacks(b, ','),
        a.len() > 0,
        b.len() > 0,
        trim(a) == a,
        trim(b) == b,
    ensures
        comma_list(a + seq![','] + b) == seq![a, b],
{
    lemma_split_at(a, b, ',', seq![]);
    lemma_split_plain(b, ',', seq![]);
    assert(Seq::<char>::empty() + a =~= a);
    assert(Seq::<char>::empty() + b =~= b);
    let segs = split(a + seq![','] + b, ',');
    assert(segs =~= seq![a, b]);
    assert(segs.drop_last() =~= seq![a]);
    assert(seq![a].drop_last() =~= Seq::<Seq<char>>::empty());
    assert(trimmed_nonempty(Seq::<Seq<char>>::empty()) == Seq::<Seq<char>>::empty());
    assert(seq![a].last() == a);
    assert(trimmed_nonempty(seq![a]) == trimmed_nonempty(seq![a].drop_last()).push(a));
    assert(trimmed_nonempty(seq![a]) =~= seq![a]);
    assert(segs.last() == b);
    assert(trimmed_nonempty(segs) =~= seq![a, b]);
}

} // verus!
