//! Character-level helpers on strings: searching, decimal numbers, joining.
//!
//! Every contract here speaks of a string through its view, the sequence of
//! its characters.

use vstd::prelude::*;

verus! {

/// `i` is the position of the first `c` in `s`.
pub open spec fn is_first_index(s: Seq<char>, c: char, i: int) -> bool {
    &&& 0 <= i < s.len()
    &&& s[i] == c
    &&& forall|j: int| 0 <= j < i ==> s[j] != c
}

/// The position of the first `c` in `s`, if `s` holds one.
pub open spec fn first_index(s: Seq<char>, c: char) -> Option<int> {
    if exists|i: int| is_first_index(s, c, i) {
        Some(choose|i: int| is_first_index(s, c, i))
    } else {
        None
    }
}

/// `pattern` stands in `s` at position `i`.
pub open spec fn occurs_at(s: Seq<char>, pattern: Seq<char>, i: int) -> bool {
    &&& 0 <= i
    &&& i + pattern.len() <= s.len()
    &&& s.subrange(i, i + pattern.len()) == pattern
}

/// `i` is the position of the last occurrence of `pattern` in `s`.
pub open spec fn is_last_occurrence(s: Seq<char>, pattern: Seq<char>, i: int) -> bool {
    &&& occurs_at(s, pattern, i)
    &&& forall|j: int| i < j ==> !occurs_at(s, pattern, j)
}

/// The position of the last occurrence of `pattern` in `s`, if there is one.
pub open spec fn last_occurrence(s: Seq<char>, pattern: Seq<char>) -> Option<int> {
    if exists|i: int| is_last_occurrence(s, pattern, i) {
        Some(choose|i: int| is_last_occurrence(s, pattern, i))
    } else {
        None
    }
}

/// A first index, once found, is the one that `first_index` names.
pub proof fn lemma_first_index_found(s: Seq<char>, c: char, i: int)
    requires
        is_first_index(s, c, i),
    ensures
        first_index(s, c) == Some(i),
{
    let k = choose|k: int| is_first_index(s, c, k);
    assert(is_first_index(s, c, k));
    if k < i {
        assert(s[k] != c);
    } else if i < k {
        assert(s[i] != c);
    }
}

/// Where no position holds `c`, `first_index` names none.
pub proof fn lemma_first_index_absent(s: Seq<char>, c: char)
    requires
        forall|j: int| 0 <= j < s.len() ==> s[j] != c,
    ensures
        first_index(s, c) is None,
{
}

/// A last occurrence, once found, is the one that `last_occurrence` names.
pub proof fn lemma_last_occurrence_found(s: Seq<char>, pattern: Seq<char>, i: int)
    requires
        is_last_occurrence(s, pattern, i),
    ensures
        last_occurrence(s, pattern) == Some(i),
{
    let k = choose|k: int| is_last_occurrence(s, pattern, k);
    assert(is_last_occurrence(s, pattern, k));
    if k < i {
        assert(!occurs_at(s, pattern, i));
    } else if i < k {
        assert(!occurs_at(s, pattern, k));
    }
}

/// The characters of `s`, in order.
pub fn chars_of(s: &str) -> (r: Vec<char>)
    ensures
        r@ == s@,
{
    let mut out: Vec<char> = Vec::new();
    for c in it: s.chars()
        invariant
            out@ == it.seq().take(it.index()),
            it.seq() == s@,
    {
        out.push(c);
    }
    out
}

/// Whether `pattern` stands in `s` at position `at`.
pub fn matches_at(s: &Vec<char>, pattern: &Vec<char>, at: usize) -> (r: bool)
    ensures
        r == occurs_at(s@, pattern@, at as int),
{
    if pattern.len() > s.len() || at > s.len() - pattern.len() {
        return false;
    }
    let mut k: usize = 0;
    while k < pattern.len()
        invariant
            k <= pattern.len(),
            at + pattern.len() <= s.len(),
            forall|j: int| 0 <= j < k ==> s@[at + j] == pattern@[j],
        decreases pattern.len() - k,
    {
        if s[at + k] != pattern[k] {
            proof {
                let sub = s@.subrange(at as int, at + pattern.len());
                assert(sub[k as int] == s@[at + k]);
            }
            return false;
        }
        k += 1;
    }
    assert(s@.subrange(at as int, at + pattern.len()) =~= pattern@);
    true
}

/// Whether `s` begins with `prefix`.
pub fn has_prefix(s: &Vec<char>, prefix: &Vec<char>) -> (r: bool)
    ensures
        r == prefix@.is_prefix_of(s@),
{
    let r = matches_at(s, prefix, 0);
    proof {
        if prefix@.len() <= s@.len() {
            assert(s@.subrange(0, prefix@.len() as int) == s@.subrange(
                0int,
                0int + prefix@.len(),
            ));
        }
    }
    r
}

/// The first position at or after `from` that holds `c`, counted from `from`.
pub fn find_char(s: &Vec<char>, from: usize, c: char) -> (r: Option<usize>)
    requires
        from <= s.len(),
    ensures
        r matches Some(i) ==> from + i < s.len(),
        first_index(s@.skip(from as int), c) == (match r {
            Some(i) => Some(i as int),
            None => None,
        }),
{
    let ghost rest = s@.skip(from as int);
    let mut k: usize = from;
    while k < s.len()
        invariant
            from <= k <= s.len(),
            rest == s@.skip(from as int),
            forall|j: int| 0 <= j < k - from ==> rest[j] != c,
        decreases s.len() - k,
    {
        if s[k] == c {
            proof {
                assert(rest[k - from] == c);
                lemma_first_index_found(rest, c, k - from);
            }
            return Some(k - from);
        }
        k += 1;
    }
    proof {
        lemma_first_index_absent(rest, c);
    }
    None
}

/// The position of the last occurrence of `pattern` in `s`.
pub fn rfind(s: &Vec<char>, pattern: &Vec<char>) -> (r: Option<usize>)
    ensures
        r matches Some(i) ==> i + pattern.len() <= s.len(),
        last_occurrence(s@, pattern@) == (match r {
            Some(i) => Some(i as int),
            None => None,
        }),
{
    if pattern.len() > s.len() {
        return None;
    }
    let mut k: usize = s.len() - pattern.len();
    loop
        invariant
            pattern.len() <= s.len(),
            k + pattern.len() <= s.len(),
            forall|j: int| k < j ==> !occurs_at(s@, pattern@, j),
        decreases k,
    {
        if matches_at(s, pattern, k) {
            proof {
                lemma_last_occurrence_found(s@, pattern@, k as int);
            }
            return Some(k);
        }
        if k == 0 {
            return None;
        }
        k -= 1;
    }
}

/// Whether `c` is one of the ten decimal digits.
pub open spec fn is_digit(c: char) -> bool {
    '0' <= c <= '9'
}

/// The value of the decimal digit `c`.
pub open spec fn digit_value(c: char) -> nat {
    (c as u32 - '0' as u32) as nat
}

/// Why a text is no byte in decimal.
#[derive(Clone, Copy, Debug, PartialEq, Eq, Structural)]
pub enum NumberFault {
    /// The text is empty.
    Empty,
    /// A character is no digit, or a sign stands alone.
    InvalidDigit,
    /// The number is above 255.
    TooLarge,
}

/// What is left of a number's text once an optional leading `+` is taken away.
pub open spec fn unsigned_digits(s: Seq<char>) -> Seq<char> {
    if s.len() > 0 && s[0] == '+' {
        s.drop_first()
    } else {
        s
    }
}

/// The number that the decimal digits `s` write, the most significant first,
/// read from the left: the first character that is no digit, or the first
/// digit with which the number passes 255, is the fault.
pub open spec fn read_digits(s: Seq<char>) -> Result<nat, NumberFault>
    decreases s.len(),
{
    if s.len() == 0 {
        Ok(0)
    } else {
        match read_digits(s.drop_last()) {
            Err(e) => Err(e),
            Ok(v) => if !is_digit(s.last()) {
                Err(NumberFault::InvalidDigit)
            } else if 10 * v + digit_value(s.last()) > 255 {
                Err(NumberFault::TooLarge)
            } else {
                Ok(10 * v + digit_value(s.last()))
            },
        }
    }
}

/// The byte that `s` writes in decimal: an optional `+`, at least one digit,
/// nothing else, and a value of at most 255. Leading zeros are accepted.
pub open spec fn parse_u8(s: Seq<char>) -> Result<u8, NumberFault> {
    if s.len() == 0 {
        Err(NumberFault::Empty)
    } else if unsigned_digits(s).len() == 0 {
        Err(NumberFault::InvalidDigit)
    } else {
        match read_digits(unsigned_digits(s)) {
            Err(e) => Err(e),
            Ok(v) => Ok(v as u8),
        }
    }
}

/// A fault among the first digits is the fault of the whole.
pub proof fn lemma_read_digits_fault(s: Seq<char>, k: int)
    requires
        0 <= k <= s.len(),
        read_digits(s.take(k)) is Err,
    ensures
        read_digits(s) == read_digits(s.take(k)),
    decreases s.len() - k,
{
    if k == s.len() {
        assert(s.take(k) == s);
    } else {
        assert(s.take(k + 1).drop_last() == s.take(k));
        lemma_read_digits_fault(s, k + 1);
    }
}

/// The decimal digit of value `d`.
pub open spec fn digit_char(d: nat) -> char {
    if d == 0 {
        '0'
    } else if d == 1 {
        '1'
    } else if d == 2 {
        '2'
    } else if d == 3 {
        '3'
    } else if d == 4 {
        '4'
    } else if d == 5 {
        '5'
    } else if d == 6 {
        '6'
    } else if d == 7 {
        '7'
    } else if d == 8 {
        '8'
    } else {
        '9'
    }
}

/// `n` in decimal, without leading zeros.
pub open spec fn decimal_u8(n: u8) -> Seq<char> {
    if n < 10 {
        seq![digit_char(n as nat)]
    } else if n < 100 {
        seq![digit_char((n / 10) as nat), digit_char((n % 10) as nat)]
    } else {
        seq![
            digit_char((n / 100) as nat),
            digit_char(((n / 10) % 10) as nat),
            digit_char((n % 10) as nat),
        ]
    }
}

/// Reads the characters of `s` from `start` up to `end` as a byte in decimal.
pub fn parse_u8_range(s: &Vec<char>, start: usize, end: usize) -> (r: Result<u8, NumberFault>)
    requires
        start <= end <= s.len(),
    ensures
        r == parse_u8(s@.subrange(start as int, end as int)),
{
    let ghost text = s@.subrange(start as int, end as int);
    if start == end {
        return Err(NumberFault::Empty);
    }
    let mut k: usize = start;
    if s[k] == '+' {
        k += 1;
    }
    let first: usize = k;
    let ghost digits = s@.subrange(first as int, end as int);
    assert(digits == unsigned_digits(text)) by {
        assert(text[0] == s@[start as int]);
        if first != start {
            assert(digits =~= text.drop_first());
        }
    }
    if first == end {
        return Err(NumberFault::InvalidDigit);
    }
    let mut value: u32 = 0;
    while k < end
        invariant
            first <= k <= end <= s.len(),
            start < end,
            first < end,
            digits == s@.subrange(first as int, end as int),
            digits == unsigned_digits(s@.subrange(start as int, end as int)),
            read_digits(digits.take(k - first)) == Ok::<nat, NumberFault>(value as nat),
            value <= 255,
        decreases end - k,
    {
        let c: char = s[k];
        let ghost upto = digits.take(k - first + 1);
        assert(upto.drop_last() == digits.take(k - first));
        assert(upto.last() == c);
        if c < '0' || c > '9' {
            proof {
                lemma_read_digits_fault(digits, k - first + 1);
            }
            return Err(NumberFault::InvalidDigit);
        }
        let d: u32 = c as u32 - '0' as u32;
        value = value * 10 + d;
        if value > 255 {
            proof {
                lemma_read_digits_fault(digits, k - first + 1);
            }
            return Err(NumberFault::TooLarge);
        }
        k += 1;
    }
    assert(digits.take(k - first) == digits);
    Ok(value as u8)
}

/// The text of one decimal digit.
fn digit_str(d: u8) -> (r: &'static str)
    requires
        d < 10,
    ensures
        r@ == seq![digit_char(d as nat)],
{
    proof {
        reveal_strlit("0");
        reveal_strlit("1");
        reveal_strlit("2");
        reveal_strlit("3");
        reveal_strlit("4");
        reveal_strlit("5");
        reveal_strlit("6");
        reveal_strlit("7");
        reveal_strlit("8");
        reveal_strlit("9");
    }
    let r = if d == 0 {
        "0"
    } else if d == 1 {
        "1"
    } else if d == 2 {
        "2"
    } else if d == 3 {
        "3"
    } else if d == 4 {
        "4"
    } else if d == 5 {
        "5"
    } else if d == 6 {
        "6"
    } else if d == 7 {
        "7"
    } else if d == 8 {
        "8"
    } else {
        "9"
    };
    assert(r@ =~= seq![digit_char(d as nat)]);
    r
}

/// Appends `n` in decimal to `out`.
pub fn push_decimal_u8(out: &mut String, n: u8)
    ensures
        final(out)@ == old(out)@ + decimal_u8(n),
{
    if n >= 100 {
        out.append(digit_str(n / 100));
    }
    if n >= 10 {
        out.append(digit_str((n / 10) % 10));
    }
    out.append(digit_str(n % 10));
    assert(out@ =~= old(out)@ + decimal_u8(n));
}

/// The parts written one after another, with `sep` between neighbours.
pub open spec fn join(parts: Seq<Seq<char>>, sep: Seq<char>) -> Seq<char>
    decreases parts.len(),
{
    if parts.len() == 0 {
        Seq::empty()
    } else if parts.len() == 1 {
        parts[0]
    } else {
        join(parts.drop_last(), sep) + sep + parts.last()
    }
}

/// Joins `parts` with `sep` between neighbours.
pub fn join_strings(parts: &Vec<String>, sep: &str) -> (r: String)
    ensures
        r@ == join(parts.deep_view(), sep@),
{
    let mut out: String = String::new();
    let mut k: usize = 0;
    while k < parts.len()
        invariant
            k <= parts.len(),
            out@ == join(parts.deep_view().take(k as int), sep@),
        decreases parts.len() - k,
    {
        let ghost before = parts.deep_view().take(k as int);
        let ghost upto = parts.deep_view().take(k + 1);
        assert(upto.drop_last() == before);
        assert(upto.last() == parts[k as int]@);
        if k > 0 {
            out.append(sep);
        }
        out.append(parts[k].as_str());
        assert(out@ =~= join(upto, sep@));
        k += 1;
    }
    assert(parts.deep_view().take(k as int) == parts.deep_view());
    out
}

/// The order of bytes by size.
pub open spec fn byte_leq() -> spec_fn(u8, u8) -> bool {
    |a: u8, b: u8| a <= b
}

/// The bytes of `s` in ascending order, each as often as `s` holds it.
pub open spec fn ascending(s: Seq<u8>) -> Seq<u8> {
    s.sort_by(byte_leq())
}

/// An ascending sequence with the same bytes as `s`, each as often, is `ascending(s)`.
pub proof fn lemma_ascending_unique(s: Seq<u8>, r: Seq<u8>)
    requires
        vstd::relations::sorted_by(r, byte_leq()),
        r.to_multiset() == s.to_multiset(),
    ensures
        r == ascending(s),
{
    assert(vstd::relations::total_ordering(byte_leq()));
    s.lemma_sort_by_ensures(byte_leq());
    vstd::seq_lib::lemma_sorted_unique(r, ascending(s), byte_leq());
}

/// The bytes of `v` in ascending order.
pub fn sort_bytes(v: &Vec<u8>) -> (r: Vec<u8>)
    ensures
        r@ == ascending(v@),
{
    let mut out: Vec<u8> = Vec::new();
    let mut k: usize = 0;
    assert(out@ =~= v@.take(0));
    while k < v.len()
        invariant
            k <= v.len(),
            vstd::relations::sorted_by(out@, byte_leq()),
            out@.to_multiset() == v@.take(k as int).to_multiset(),
        decreases v.len() - k,
    {
        let x: u8 = v[k];
        let mut p: usize = 0;
        while p < out.len() && out[p] <= x
            invariant
                p <= out.len(),
                forall|i: int| 0 <= i < p ==> out@[i] <= x,
            decreases out.len() - p,
        {
            p += 1;
        }
        let ghost before = out@;
        out.insert(p, x);
        proof {
            vstd::seq_lib::to_multiset_insert(before, p as int, x);
            assert(v@.take(k + 1) == v@.take(k as int).push(x));
            vstd::seq_lib::to_multiset_build(v@.take(k as int), x);
            assert forall|i: int, j: int| 0 <= i < j < out@.len() implies byte_leq()(
                out@[i],
                out@[j],
            ) by {
                if j < p {
                    assert(byte_leq()(before[i], before[j]));
                } else if i < p && j > p {
                    assert(byte_leq()(before[i], before[j - 1]));
                } else if i > p {
                    assert(byte_leq()(before[i - 1], before[j - 1]));
                } else if i == p {
                    assert(byte_leq()(before[p as int], before[j - 1]));
                }
            }
        }
        k += 1;
    }
    proof {
        assert(v@.take(k as int) == v@);
        lemma_ascending_unique(v@, out@);
    }
    out
}

/// `a` and `b` hold the same characters at their first `k` positions.
pub open spec fn agree_before(a: Seq<char>, b: Seq<char>, k: int) -> bool {
    &&& 0 <= k <= a.len()
    &&& k <= b.len()
    &&& forall|j: int| 0 <= j < k ==> a[j] == b[j]
}

/// `a` and `b` agree before position `k`, where `a` ends or holds the smaller
/// character.
pub open spec fn precedes_at(a: Seq<char>, b: Seq<char>, k: int) -> bool {
    &&& agree_before(a, b, k)
    &&& k < b.len()
    &&& (k == a.len() || a[k] < b[k])
}

/// `a` comes strictly before `b` in the order of a dictionary; this is the
/// order of `String`, which compares the bytes of the UTF-8 encoding.
pub open spec fn precedes(a: Seq<char>, b: Seq<char>) -> bool {
    exists|k: int| precedes_at(a, b, k)
}

/// Each string of `s` comes strictly before the ones after it.
pub open spec fn strictly_ascending(s: Seq<Seq<char>>) -> bool {
    forall|i: int, j: int| 0 <= i < j < s.len() ==> precedes(#[trigger] s[i], #[trigger] s[j])
}

/// The strings of the finite set `set`, each once, in ascending order.
pub open spec fn sorted_set(set: Set<Seq<char>>) -> Seq<Seq<char>> {
    choose|r: Seq<Seq<char>>| strictly_ascending(r) && r.to_set() == set
}

/// No string comes before itself.
pub proof fn lemma_precedes_irreflexive(a: Seq<char>)
    ensures
        !precedes(a, a),
{
}

/// The order is transitive.
pub proof fn lemma_precedes_transitive(a: Seq<char>, b: Seq<char>, c: Seq<char>)
    requires
        precedes(a, b),
        precedes(b, c),
    ensures
        precedes(a, c),
{
    let k1 = choose|k: int| precedes_at(a, b, k);
    let k2 = choose|k: int| precedes_at(b, c, k);
    if k1 <= k2 {
        assert(precedes_at(a, c, k1));
    } else {
        assert(precedes_at(a, c, k2));
    }
}

/// Two strictly ascending sequences with the same strings are the same
/// sequence.
pub proof fn lemma_strictly_ascending_unique(x: Seq<Seq<char>>, y: Seq<Seq<char>>)
    requires
        strictly_ascending(x),
        strictly_ascending(y),
        x.to_set() == y.to_set(),
    ensures
        x == y,
    decreases x.len(),
{
    if x.len() == 0 {
        if y.len() > 0 {
            assert(y.contains(y[0]));
            assert(y.to_set().contains(y[0]));
            assert(x.contains(y[0]));
        }
        assert(x =~= y);
    } else {
        assert(x.contains(x[0]));
        assert(x.to_set().contains(x[0]));
        assert(y.contains(x[0]));
        let j = choose|j: int| 0 <= j < y.len() && y[j] == x[0];
        assert(y.contains(y[0]));
        assert(y.to_set().contains(y[0]));
        assert(x.contains(y[0]));
        let i = choose|i: int| 0 <= i < x.len() && x[i] == y[0];
        if i > 0 && j > 0 {
            assert(precedes(x[0], x[i]));
            assert(precedes(y[0], y[j]));
            lemma_precedes_transitive(x[0], y[0], x[0]);
            lemma_precedes_irreflexive(x[0]);
        }
        assert(x[0] == y[0]);
        let xs = x.drop_first();
        let ys = y.drop_first();
        assert forall|e: Seq<char>| xs.to_set().contains(e) <==> ys.to_set().contains(e) by {
            if xs.contains(e) {
                let m = choose|m: int| 0 <= m < xs.len() && xs[m] == e;
                assert(x[m + 1] == e);
                assert(precedes(x[0], x[m + 1]));
                lemma_precedes_irreflexive(e);
                assert(x.contains(e));
                assert(x.to_set().contains(e));
                assert(y.contains(e));
                let n = choose|n: int| 0 <= n < y.len() && y[n] == e;
                assert(ys[n - 1] == e);
                assert(ys.contains(e));
            }
            if ys.contains(e) {
                let m = choose|m: int| 0 <= m < ys.len() && ys[m] == e;
                assert(y[m + 1] == e);
                assert(precedes(y[0], y[m + 1]));
                lemma_precedes_irreflexive(e);
                assert(y.contains(e));
                assert(y.to_set().contains(e));
                assert(x.contains(e));
                let n = choose|n: int| 0 <= n < x.len() && x[n] == e;
                assert(xs[n - 1] == e);
                assert(xs.contains(e));
            }
        }
        assert(xs.to_set() =~= ys.to_set());
        assert(strictly_ascending(xs)) by {
            assert forall|a: int, b: int| 0 <= a < b < xs.len() implies precedes(
                #[trigger] xs[a],
                #[trigger] xs[b],
            ) by {
                assert(precedes(x[a + 1], x[b + 1]));
            }
        }
        assert(strictly_ascending(ys)) by {
            assert forall|a: int, b: int| 0 <= a < b < ys.len() implies precedes(
                #[trigger] ys[a],
                #[trigger] ys[b],
            ) by {
                assert(precedes(y[a + 1], y[b + 1]));
            }
        }
        lemma_strictly_ascending_unique(xs, ys);
        assert(x =~= seq![x[0]] + xs);
        assert(y =~= seq![y[0]] + ys);
    }
}

/// Of two different strings one comes before the other.
pub proof fn lemma_precedes_total(a: Seq<char>, b: Seq<char>)
    requires
        a != b,
    ensures
        precedes(a, b) || precedes(b, a),
    decreases a.len(),
{
    if a.len() == 0 {
        assert(b.len() > 0) by {
            if b.len() == 0 {
                assert(a =~= b);
            }
        }
        assert(precedes_at(a, b, 0));
    } else if b.len() == 0 {
        assert(precedes_at(b, a, 0));
    } else if a[0] != b[0] {
        if a[0] < b[0] {
            assert(precedes_at(a, b, 0));
        } else {
            assert(precedes_at(b, a, 0));
        }
    } else {
        let x = a.drop_first();
        let y = b.drop_first();
        assert(x != y) by {
            if x == y {
                assert(a =~= seq![a[0]] + x);
                assert(b =~= seq![b[0]] + y);
            }
        }
        lemma_precedes_total(x, y);
        if precedes(x, y) {
            let k = choose|k: int| precedes_at(x, y, k);
            assert(agree_before(a, b, k + 1)) by {
                assert forall|j: int| 0 <= j < k + 1 implies a[j] == b[j] by {
                    if j > 0 {
                        assert(x[j - 1] == y[j - 1]);
                    }
                }
            }
            if k < x.len() {
                assert(x[k] == a[k + 1] && y[k] == b[k + 1]);
            }
            assert(precedes_at(a, b, k + 1));
        } else {
            let k = choose|k: int| precedes_at(y, x, k);
            assert(agree_before(b, a, k + 1)) by {
                assert forall|j: int| 0 <= j < k + 1 implies b[j] == a[j] by {
                    if j > 0 {
                        assert(y[j - 1] == x[j - 1]);
                    }
                }
            }
            if k < y.len() {
                assert(y[k] == b[k + 1] && x[k] == a[k + 1]);
            }
            assert(precedes_at(b, a, k + 1));
        }
    }
}

/// A string that a strictly ascending sequence lacks has a place in it.
pub proof fn lemma_place_in_ascending(r: Seq<Seq<char>>, x: Seq<char>) -> (p: int)
    requires
        strictly_ascending(r),
        !r.contains(x),
    ensures
        0 <= p <= r.len(),
        strictly_ascending(r.insert(p, x)),
    decreases r.len(),
{
    if r.len() == 0 {
        0
    } else {
        let last = r.last();
        assert(r.contains(last));
        lemma_precedes_total(last, x);
        if precedes(last, x) {
            let p = r.len() as int;
            let after = r.insert(p, x);
            assert forall|i: int, j: int| 0 <= i < j < after.len() implies precedes(
                #[trigger] after[i],
                #[trigger] after[j],
            ) by {
                if j < p {
                    assert(precedes(r[i], r[j]));
                } else if i < p - 1 {
                    assert(precedes(r[i], r[p - 1]));
                    lemma_precedes_transitive(r[i], last, x);
                }
            }
            p
        } else {
            let front = r.drop_last();
            assert(strictly_ascending(front)) by {
                assert forall|i: int, j: int| 0 <= i < j < front.len() implies precedes(
                    #[trigger] front[i],
                    #[trigger] front[j],
                ) by {
                    assert(precedes(r[i], r[j]));
                }
            }
            assert(!front.contains(x)) by {
                if front.contains(x) {
                    let i = choose|i: int| 0 <= i < front.len() && front[i] == x;
                    assert(r[i] == x);
                }
            }
            let p = lemma_place_in_ascending(front, x);
            let inner = front.insert(p, x);
            let after = r.insert(p, x);
            assert(after =~= inner.push(last));
            assert forall|i: int, j: int| 0 <= i < j < after.len() implies precedes(
                #[trigger] after[i],
                #[trigger] after[j],
            ) by {
                if j < inner.len() {
                    assert(precedes(inner[i], inner[j]));
                } else if i == p {
                } else if i < p {
                    assert(precedes(r[i], r[r.len() - 1]));
                } else {
                    assert(precedes(r[i - 1], r[r.len() - 1]));
                }
            }
            p
        }
    }
}

/// The strings of a finite set can be put in ascending order, and `sorted_set`
/// does so: it ascends strictly and holds exactly the strings of the set.
pub proof fn lemma_sorted_set(set: Set<Seq<char>>)
    requires
        set.finite(),
    ensures
        strictly_ascending(sorted_set(set)),
        sorted_set(set).to_set() == set,
    decreases set.len(),
{
    if set.len() == 0 {
        let r = Seq::<Seq<char>>::empty();
        assert(set =~= Set::empty());
        assert(r.to_set() =~= set);
        assert(strictly_ascending(r));
    } else {
        let x = set.choose();
        let rest = set.remove(x);
        lemma_sorted_set(rest);
        let front = sorted_set(rest);
        assert(!front.contains(x)) by {
            if front.contains(x) {
                assert(front.to_set().contains(x));
            }
        }
        let p = lemma_place_in_ascending(front, x);
        let r = front.insert(p, x);
        assert forall|e: Seq<char>| r.to_set().contains(e) <==> set.contains(e) by {
            if r.contains(e) {
                let i = choose|i: int| 0 <= i < r.len() && r[i] == e;
                if i < p {
                    assert(front[i] == e);
                    assert(front.contains(e));
                    assert(front.to_set().contains(e));
                } else if i > p {
                    assert(front[i - 1] == e);
                    assert(front.contains(e));
                    assert(front.to_set().contains(e));
                }
            }
            if set.contains(e) {
                if e == x {
                    assert(r[p] == e);
                } else {
                    assert(rest.contains(e));
                    assert(front.to_set().contains(e));
                    assert(front.contains(e));
                    let i = choose|i: int| 0 <= i < front.len() && front[i] == e;
                    if i < p {
                        assert(r[i] == e);
                    } else {
                        assert(r[i + 1] == e);
                    }
                }
                assert(r.contains(e));
            }
        }
        assert(r.to_set() =~= set);
    }
}

/// A strictly ascending sequence is the sorted form of the set of its strings.
pub proof fn lemma_sorted_set_of(r: Seq<Seq<char>>)
    requires
        strictly_ascending(r),
    ensures
        sorted_set(r.to_set()) == r,
{
    let chosen = sorted_set(r.to_set());
    assert(strictly_ascending(chosen) && chosen.to_set() == r.to_set());
    lemma_strictly_ascending_unique(chosen, r);
}

/// How one string stands to another in the order of `precedes`.
pub enum Order {
    /// The first comes before the second.
    Before,
    /// The two are equal.
    Same,
    /// The first comes after the second.
    After,
}

/// Where `a` stands to `b` in the order of a dictionary.
pub fn order_of(a: &Vec<char>, b: &Vec<char>) -> (r: Order)
    ensures
        r is Before <==> precedes(a@, b@),
        r is Same <==> a@ == b@,
        r is After <==> precedes(b@, a@),
{
    proof {
        lemma_precedes_irreflexive(a@);
        if precedes(a@, b@) && precedes(b@, a@) {
            lemma_precedes_transitive(a@, b@, a@);
        }
    }
    let mut k: usize = 0;
    while k < a.len() && k < b.len()
        invariant
            agree_before(a@, b@, k as int),
        decreases a.len() - k,
    {
        if a[k] < b[k] {
            assert(precedes_at(a@, b@, k as int));
            return Order::Before;
        }
        if a[k] > b[k] {
            assert(agree_before(b@, a@, k as int));
            assert(precedes_at(b@, a@, k as int));
            return Order::After;
        }
        k += 1;
    }
    if k < b.len() {
        assert(precedes_at(a@, b@, k as int));
        Order::Before
    } else if k < a.len() {
        assert(agree_before(b@, a@, k as int));
        assert(precedes_at(b@, a@, k as int));
        Order::After
    } else {
        assert(a@ =~= b@);
        Order::Same
    }
}

/// Puts `item` at its place in the ascending `sorted`, unless it is there.
pub fn insert_distinct(sorted: &mut Vec<String>, item: String)
    requires
        strictly_ascending(old(sorted).deep_view()),
    ensures
        strictly_ascending(final(sorted).deep_view()),
        final(sorted).deep_view().to_set() == old(sorted).deep_view().to_set().insert(item@),
{
    let ghost before = sorted.deep_view();
    let key: Vec<char> = chars_of(item.as_str());
    let mut p: usize = 0;
    let mut placed: bool = false;
    while p < sorted.len() && !placed
        invariant
            p <= sorted.len(),
            sorted.deep_view() == before,
            strictly_ascending(before),
            key@ == item@,
            forall|i: int| 0 <= i < p ==> precedes(#[trigger] before[i], item@),
            placed ==> p < sorted.len() && precedes(item@, before[p as int]),
        decreases sorted.len() - p, (if placed { 0int } else { 1int }),
    {
        let here: Vec<char> = chars_of(sorted[p].as_str());
        assert(here@ == before[p as int]);
        match order_of(&here, &key) {
            Order::Before => {
                p += 1;
            },
            Order::Same => {
                proof {
                    assert(before.contains(item@));
                    assert(before.to_set().insert(item@) =~= before.to_set());
                }
                return ;
            },
            Order::After => {
                placed = true;
            },
        }
    }
    sorted.insert(p, item);
    proof {
        let after = sorted.deep_view();
        assert(after =~= before.insert(p as int, item@));
        assert forall|i: int, j: int| 0 <= i < j < after.len() implies precedes(
            #[trigger] after[i],
            #[trigger] after[j],
        ) by {
            if j < p {
                assert(precedes(before[i], before[j]));
            } else if j == p {
                assert(precedes(before[i], item@));
            } else if i < p {
                assert(precedes(before[i], before[j - 1]));
            } else if i == p {
                assert(precedes(item@, before[p as int]));
                if j - 1 > p {
                    assert(precedes(before[p as int], before[j - 1]));
                    lemma_precedes_transitive(item@, before[p as int], before[j - 1]);
                }
            } else {
                assert(precedes(before[i - 1], before[j - 1]));
            }
        }
        assert forall|e: Seq<char>| after.to_set().contains(e) <==> before.to_set().insert(
            item@,
        ).contains(e) by {
            if after.contains(e) {
                let m = choose|m: int| 0 <= m < after.len() && after[m] == e;
                if m < p {
                    assert(before[m] == e);
                    assert(before.contains(e));
                } else if m > p {
                    assert(before[m - 1] == e);
                    assert(before.contains(e));
                }
            }
            if before.contains(e) {
                let m = choose|m: int| 0 <= m < before.len() && before[m] == e;
                if m < p {
                    assert(after[m] == e);
                } else {
                    assert(after[m + 1] == e);
                }
                assert(after.contains(e));
            }
            if e == item@ {
                assert(after[p as int] == e);
                assert(after.contains(e));
            }
        }
        assert(after.to_set() =~= before.to_set().insert(item@));
    }
}

} // verus!
