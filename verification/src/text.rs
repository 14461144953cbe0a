//! Character-level helpers shared by the parsers and formatters: decimal
//! digits, Unicode white space, and building `String`s one char at a time.

use vstd::prelude::*;

verus! {

broadcast use vstd::string::group_string_axioms;

/// The chars of `s`, in order.
pub fn chars_of(s: &str) -> (v: Vec<char>)
    ensures
        v@ == s@,
{
    let mut v: Vec<char> = Vec::new();
    for c in it: s.chars()
        invariant
            v@ == it.seq().take(it.index() as int),
            it.seq() == s@,
    {
        v.push(c);
    }
    v
}

/// A `String` holding exactly the chars of `cs`.
pub fn string_from_chars(cs: &Vec<char>) -> (s: String)
    ensures
        s@ == cs@,
{
    let mut s = String::new();
    push_all(&mut s, cs);
    assert(s@ =~= cs@);
    s
}

/// The ASCII digit for a value in `0..10`.
pub open spec fn digit_char(d: int) -> char {
    if d == 0 {
        '0'
    } else if d == 1 {
        '1'
    } else if d == 2 {
        '2'
    } else if d == 3 {
        '3'
    } else if d == 4 {
        '4'
    } else if d == 5 {
        '5'
    } else if d == 6 {
        '6'
    } else if d == 7 {
        '7'
    } else if d == 8 {
        '8'
    } else {
        '9'
    }
}

pub open spec fn is_digit(c: char) -> bool {
    '0' <= c && c <= '9'
}

pub open spec fn digit_value(c: char) -> int {
    (c as int) - ('0' as int)
}

/// Whether `s` begins with `p`.
pub fn starts_with(s: &Vec<char>, p: &str) -> (r: bool)
    ensures
        r == (s@.len() >= p@.len() && s@.take(p@.len() as int) == p@),
{
    let pc = chars_of(p);
    if s.len() < pc.len() {
        return false;
    }
    let mut i: usize = 0;
    while i < pc.len()
        invariant
            i <= pc.len() <= s.len(),
            pc@ == p@,
            forall|k: int| 0 <= k < i ==> s@[k] == pc@[k],
        decreases pc.len() - i,
    {
        if s[i] != pc[i] {
            assert(s@.take(pc@.len() as int)[i as int] != p@[i as int]);
            assert(!(s@.take(p@.len() as int) =~= p@));
            return false;
        }
        i = i + 1;
    }
    assert(s@.take(pc@.len() as int) =~= pc@);
    true
}

/// Appends `c` to `s` (`String::push`).
#[verifier::external_body]
pub(crate) fn push_char(s: &mut String, c: char)
    ensures
        final(s)@ == old(s)@.push(c),
{
    s.push(c);
}

pub fn digit_to_char(d: u64) -> (c: char)
    requires
        d < 10,
    ensures
        c == digit_char(d as int),
        is_digit(c),
        digit_value(c) == d,
{
    match d {
        0 => '0',
        1 => '1',
        2 => '2',
        3 => '3',
        4 => '4',
        5 => '5',
        6 => '6',
        7 => '7',
        8 => '8',
        _ => '9',
    }
}

} // verus!

verus! {

/// Decimal digits of `n`, most significant first, with no leading zeros.
pub open spec fn dec_digits(n: nat) -> Seq<char>
    decreases n,
{
    if n < 10 {
        seq![digit_char(n as int)]
    } else {
        dec_digits(n / 10).push(digit_char((n % 10) as int))
    }
}

/// `n` in decimal, left-padded with zeros to at least `width` characters
/// (what `{:0width$}` prints for an unsigned value).
pub open spec fn zero_padded(n: nat, width: nat) -> Seq<char> {
    let digits = dec_digits(n);
    if digits.len() < width {
        Seq::new((width - digits.len()) as nat, |i: int| '0') + digits
    } else {
        digits
    }
}

/// `v` as `{:0width$}` prints a signed value: the sign counts toward the width.
pub open spec fn signed_padded(v: int, width: nat) -> Seq<char> {
    if v >= 0 {
        zero_padded(v as nat, width)
    } else {
        seq!['-'] + zero_padded((-v) as nat, if width >= 1 { (width - 1) as nat } else { 0 })
    }
}

pub open spec fn all_digits(s: Seq<char>) -> bool {
    forall|i: int| 0 <= i < s.len() ==> is_digit(#[trigger] s[i])
}

/// The value of a run of decimal digits.
pub open spec fn digits_value(s: Seq<char>) -> int
    decreases s.len(),
{
    if s.len() == 0 {
        0
    } else {
        digits_value(s.drop_last()) * 10 + digit_value(s.last())
    }
}

/// What `str::parse::<i64>` accepts and returns for a short field: an optional
/// `+` or `-` followed by at least one decimal digit.
pub open spec fn parse_int_text(s: Seq<char>) -> Option<int> {
    if s.len() == 0 {
        None
    } else if s[0] == '+' || s[0] == '-' {
        let rest = s.drop_first();
        if rest.len() > 0 && all_digits(rest) {
            Some(if s[0] == '-' { -digits_value(rest) } else { digits_value(rest) })
        } else {
            None
        }
    } else if all_digits(s) {
        Some(digits_value(s))
    } else {
        None
    }
}

pub proof fn lemma_digit_char(d: int)
    requires
        0 <= d < 10,
    ensures
        is_digit(digit_char(d)),
        digit_value(digit_char(d)) == d,
{
}

pub proof fn lemma_dec_digits(n: nat)
    ensures
        dec_digits(n).len() >= 1,
        all_digits(dec_digits(n)),
        digits_value(dec_digits(n)) == n,
        n < 10 ==> dec_digits(n).len() == 1,
        n < 100 ==> dec_digits(n).len() <= 2,
        n < 1000 ==> dec_digits(n).len() <= 3,
        n < 10000 ==> dec_digits(n).len() <= 4,
    decreases n,
{
    lemma_digit_char((n % 10) as int);
    if n >= 10 {
        lemma_dec_digits(n / 10);
        let s = dec_digits(n);
        assert(s.drop_last() =~= dec_digits(n / 10));
        assert(digits_value(s) == digits_value(dec_digits(n / 10)) * 10 + (n % 10) as int);
    } else {
        let s = dec_digits(n);
        assert(s.drop_last() =~= Seq::<char>::empty());
        assert(digits_value(s.drop_last()) == 0);
    }
}

pub proof fn lemma_zeros_value(p: Seq<char>, s: Seq<char>)
    requires
        forall|i: int| 0 <= i < p.len() ==> p[i] == '0',
    ensures
        digits_value(p + s) == digits_value(s),
        all_digits(s) ==> all_digits(p + s),
    decreases s.len() + p.len(),
{
    if s.len() == 0 {
        assert(p + s =~= p);
        if p.len() > 0 {
            lemma_zeros_value(p.drop_last(), s);
            assert(p.drop_last() + s =~= p.drop_last());
        }
    } else {
        assert((p + s).drop_last() =~= p + s.drop_last());
        lemma_zeros_value(p, s.drop_last());
    }
}

pub proof fn lemma_zero_padded(n: nat, width: nat)
    ensures
        all_digits(zero_padded(n, width)),
        digits_value(zero_padded(n, width)) == n,
        zero_padded(n, width).len() >= width,
        zero_padded(n, width).len() >= 1,
        n < 10 && width >= 1 ==> zero_padded(n, width).len() == width,
        n < 100 && width >= 2 ==> zero_padded(n, width).len() == width,
        n < 1000 && width >= 3 ==> zero_padded(n, width).len() == width,
        n < 10000 && width >= 4 ==> zero_padded(n, width).len() == width,
{
    lemma_dec_digits(n);
    let digits = dec_digits(n);
    if digits.len() < width {
        let p = Seq::new((width - digits.len()) as nat, |i: int| '0');
        lemma_zeros_value(p, digits);
    }
}

/// Parsing a zero-padded rendering gives the value back.
pub proof fn lemma_parse_zero_padded(n: nat, width: nat)
    ensures
        parse_int_text(zero_padded(n, width)) == Some(n as int),
{
    lemma_zero_padded(n, width);
    let s = zero_padded(n, width);
    assert(is_digit(s[0]));
}

/// Decimal digits of `n`, as a vector.
pub fn dec_chars(n: u64) -> (v: Vec<char>)
    ensures
        v@ == dec_digits(n as nat),
    decreases n,
{
    if n < 10 {
        let mut v = Vec::new();
        v.push(digit_to_char(n));
        v
    } else {
        let mut v = dec_chars(n / 10);
        v.push(digit_to_char(n % 10));
        v
    }
}

/// Appends every char of `cs` to `s`.
pub fn push_all(s: &mut String, cs: &Vec<char>)
    ensures
        final(s)@ == old(s)@ + cs@,
{
    let mut i: usize = 0;
    while i < cs.len()
        invariant
            i <= cs.len(),
            s@ == old(s)@ + cs@.subrange(0, i as int),
        decreases cs.len() - i,
    {
        push_char(s, cs[i]);
        i = i + 1;
        assert(cs@.subrange(0, i as int) =~= cs@.subrange(0, (i - 1) as int).push(cs@[i - 1]));
    }
    assert(cs@.subrange(0, cs.len() as int) =~= cs@);
}

/// Appends `n` zero-padded to `width` characters.
pub fn push_zero_padded(s: &mut String, n: u64, width: usize)
    ensures
        final(s)@ == old(s)@ + zero_padded(n as nat, width as nat),
{
    let digits = dec_chars(n);
    let ghost start = s@;
    if digits.len() < width {
        let pad = width - digits.len();
        let mut k: usize = 0;
        while k < pad
            invariant
                k <= pad,
                s@ == start + Seq::new(k as nat, |i: int| '0'),
            decreases pad - k,
        {
            push_char(s, '0');
            k = k + 1;
            assert(s@ =~= start + Seq::new(k as nat, |i: int| '0'));
        }
    }
    push_all(s, &digits);
    assert(s@ =~= start + zero_padded(n as nat, width as nat));
}

/// Appends `v` as `{:0width$}` prints it.
pub fn push_signed_padded(s: &mut String, v: i64, width: usize)
    requires
        v > i64::MIN,
    ensures
        final(s)@ == old(s)@ + signed_padded(v as int, width as nat),
{
    if v >= 0 {
        push_zero_padded(s, v as u64, width);
    } else {
        let ghost start = s@;
        push_char(s, '-');
        let w = if width >= 1 { width - 1 } else { 0 };
        push_zero_padded(s, (-v) as u64, w);
        assert(s@ =~= start + signed_padded(v as int, width as nat));
    }
}

} // verus!

verus! {

/// Parses a field of at most four chars the way `str::parse::<i64>` does.
pub fn parse_short_int(cs: &Vec<char>, from: usize, to: usize) -> (r: Option<i64>)
    requires
        from <= to <= cs.len(),
        to - from <= 4,
    ensures
        match parse_int_text(cs@.subrange(from as int, to as int)) {
            Some(v) => r == Some(v as i64) && -10000 < v < 10000,
            None => r is None,
        },
{
    let ghost field = cs@.subrange(from as int, to as int);
    if from == to {
        return None;
    }
    let first = cs[from];
    let negative = first == '-';
    let start = if first == '+' || first == '-' { from + 1 } else { from };
    if start == to {
        return None;
    }
    let ghost digits = cs@.subrange(start as int, to as int);
    assert(first == '+' || first == '-' ==> digits =~= field.drop_first());
    assert(!(first == '+' || first == '-') ==> digits =~= field);
    let mut value: i64 = 0;
    let mut bound: i64 = 1;
    let mut i: usize = start;
    while i < to
        invariant
            from < start <= i <= to || (from == start && start <= i <= to),
            start < to,
            to - from <= 4,
            to <= cs.len(),
            i - start <= 4,
            bound == pow10_guard((i - start) as nat),
            0 <= value < bound,
            value == digits_value(cs@.subrange(start as int, i as int)),
            all_digits(cs@.subrange(start as int, i as int)),
            digits == cs@.subrange(start as int, to as int),
            field == cs@.subrange(from as int, to as int),
            first == cs@[from as int],
            field.len() > 0,
            field[0] == first,
            (first == '+' || first == '-') ==> digits == field.drop_first(),
            !(first == '+' || first == '-') ==> digits == field,
        decreases to - i,
    {
        let c = cs[i];
        if !('0' <= c && c <= '9') {
            assert(digits[(i - start) as int] == c);
            assert(!is_digit(digits[(i - start) as int]));
            assert(!all_digits(digits));
            return None;
        }
        let d = (c as u32 - '0' as u32) as i64;
        assert(d == digit_value(c));
        let ghost prefix = cs@.subrange(start as int, i as int);
        assert(cs@.subrange(start as int, i + 1) =~= prefix.push(c));
        assert(prefix.push(c).drop_last() =~= prefix);
        assert(digits_value(prefix.push(c)) == digits_value(prefix) * 10 + digit_value(c));
        value = value * 10 + d;
        bound = bound * 10;
        i = i + 1;
    }
    assert(cs@.subrange(start as int, to as int) =~= digits);
    if negative {
        Some(-value)
    } else {
        Some(value)
    }
}

pub open spec fn pow10_guard(k: nat) -> int {
    if k == 0 { 1 } else if k == 1 { 10 } else if k == 2 { 100 } else if k == 3 { 1000 } else { 10000 }
}

} // verus!

verus! {

/// Lexicographic order on char sequences (the order of `String`'s `Ord`,
/// since UTF-8 preserves code-point order).
pub open spec fn seq_lt(a: Seq<char>, b: Seq<char>) -> bool
    decreases a.len(),
{
    if a.len() == 0 {
        b.len() > 0
    } else if b.len() == 0 {
        false
    } else if a[0] != b[0] {
        a[0] < b[0]
    } else {
        seq_lt(a.drop_first(), b.drop_first())
    }
}

pub proof fn lemma_seq_lt_irreflexive(a: Seq<char>)
    ensures
        !seq_lt(a, a),
    decreases a.len(),
{
    if a.len() > 0 {
        lemma_seq_lt_irreflexive(a.drop_first());
    }
}

pub proof fn lemma_seq_lt_transitive(a: Seq<char>, b: Seq<char>, c: Seq<char>)
    requires
        seq_lt(a, b),
        seq_lt(b, c),
    ensures
        seq_lt(a, c),
    decreases a.len(),
{
    if a.len() > 0 && b.len() > 0 && c.len() > 0 && a[0] == b[0] && b[0] == c[0] {
        lemma_seq_lt_transitive(a.drop_first(), b.drop_first(), c.drop_first());
    }
}

pub proof fn lemma_seq_lt_total(a: Seq<char>, b: Seq<char>)
    ensures
        a == b || seq_lt(a, b) || seq_lt(b, a),
    decreases a.len(),
{
    if a.len() > 0 && b.len() > 0 && a[0] == b[0] {
        lemma_seq_lt_total(a.drop_first(), b.drop_first());
        if a.drop_first() == b.drop_first() {
            assert(a =~= seq![a[0]] + a.drop_first());
            assert(b =~= seq![b[0]] + b.drop_first());
        }
    } else if a.len() == 0 && b.len() == 0 {
        assert(a =~= b);
    }
}

pub proof fn lemma_seq_lt_asymmetric(a: Seq<char>, b: Seq<char>)
    requires
        seq_lt(a, b),
    ensures
        !seq_lt(b, a),
{
    if seq_lt(b, a) {
        lemma_seq_lt_transitive(a, b, a);
        lemma_seq_lt_irreflexive(a);
    }
}

/// Two sequences in order stay in order whatever follows each, when the
/// first two have the same length.
pub proof fn lemma_seq_lt_extend(a: Seq<char>, b: Seq<char>, s1: Seq<char>, s2: Seq<char>)
    requires
        a.len() == b.len(),
        seq_lt(a, b),
    ensures
        seq_lt(a + s1, b + s2),
    decreases a.len(),
{
    if a.len() > 0 && a[0] == b[0] {
        lemma_seq_lt_extend(a.drop_first(), b.drop_first(), s1, s2);
        assert((a + s1).drop_first() =~= a.drop_first() + s1);
        assert((b + s2).drop_first() =~= b.drop_first() + s2);
    }
}

/// A common prefix keeps the order of what follows it.
pub proof fn lemma_seq_lt_prefix(p: Seq<char>, s1: Seq<char>, s2: Seq<char>)
    requires
        seq_lt(s1, s2),
    ensures
        seq_lt(p + s1, p + s2),
    decreases p.len(),
{
    if p.len() == 0 {
        assert(p + s1 =~= s1);
        assert(p + s2 =~= s2);
    } else {
        lemma_seq_lt_prefix(p.drop_first(), s1, s2);
        assert((p + s1).drop_first() =~= p.drop_first() + s1);
        assert((p + s2).drop_first() =~= p.drop_first() + s2);
    }
}

/// Digit runs of one length with one value are the same run.
pub proof fn lemma_digits_injective(a: Seq<char>, b: Seq<char>)
    requires
        a.len() == b.len(),
        all_digits(a),
        all_digits(b),
        digits_value(a) == digits_value(b),
    ensures
        a == b,
    decreases a.len(),
{
    if a.len() > 0 {
        let (a1, b1) = (a.drop_last(), b.drop_last());
        assert(all_digits(a1)) by {
            assert forall|i: int| 0 <= i < a1.len() implies is_digit(#[trigger] a1[i]) by {
                assert(a1[i] == a[i]);
            }
        }
        assert(all_digits(b1)) by {
            assert forall|i: int| 0 <= i < b1.len() implies is_digit(#[trigger] b1[i]) by {
                assert(b1[i] == b[i]);
            }
        }
        assert(is_digit(a[a.len() - 1]) && is_digit(b[b.len() - 1]));
        lemma_digits_nonneg(a1);
        lemma_digits_nonneg(b1);
        let x = digit_value(a.last());
        let y = digit_value(b.last());
        assert(digits_value(a1) == digits_value(b1) && x == y) by (nonlinear_arith)
            requires
                digits_value(a1) * 10 + x == digits_value(b1) * 10 + y,
                0 <= x < 10,
                0 <= y < 10,
        ;
        lemma_digits_injective(a1, b1);
        assert(a.last() == b.last());
        assert(a =~= a1.push(a.last()));
        assert(b =~= b1.push(b.last()));
    } else {
        assert(a =~= b);
    }
}

pub proof fn lemma_digits_nonneg(s: Seq<char>)
    requires
        all_digits(s),
    ensures
        0 <= digits_value(s),
    decreases s.len(),
{
    if s.len() > 0 {
        let t = s.drop_last();
        assert(all_digits(t)) by {
            assert forall|i: int| 0 <= i < t.len() implies is_digit(#[trigger] t[i]) by {
                assert(t[i] == s[i]);
            }
        }
        lemma_digits_nonneg(t);
        assert(is_digit(s[s.len() - 1]));
    }
}

/// Digit runs of one length sort like their values.
pub proof fn lemma_digits_order(a: Seq<char>, b: Seq<char>)
    requires
        a.len() == b.len(),
        all_digits(a),
        all_digits(b),
        digits_value(a) < digits_value(b),
    ensures
        seq_lt(a, b),
    decreases a.len(),
{
    let (a1, b1) = (a.drop_last(), b.drop_last());
    assert(all_digits(a1)) by {
        assert forall|i: int| 0 <= i < a1.len() implies is_digit(#[trigger] a1[i]) by {
            assert(a1[i] == a[i]);
        }
    }
    assert(all_digits(b1)) by {
        assert forall|i: int| 0 <= i < b1.len() implies is_digit(#[trigger] b1[i]) by {
            assert(b1[i] == b[i]);
        }
    }
    assert(is_digit(a[a.len() - 1]) && is_digit(b[b.len() - 1]));
    let x = digit_value(a.last());
    let y = digit_value(b.last());
    assert(a =~= a1 + seq![a.last()]);
    assert(b =~= b1 + seq![b.last()]);
    if digits_value(a1) < digits_value(b1) {
        lemma_digits_order(a1, b1);
        lemma_seq_lt_extend(a1, b1, seq![a.last()], seq![b.last()]);
    } else if digits_value(a1) == digits_value(b1) {
        lemma_digits_injective(a1, b1);
        assert(seq_lt(seq![a.last()], seq![b.last()])) by {
            assert(seq![a.last()].drop_first() =~= Seq::<char>::empty());
            assert(seq![b.last()].drop_first() =~= Seq::<char>::empty());
        }
        lemma_seq_lt_prefix(a1, seq![a.last()], seq![b.last()]);
    } else {
        assert(false) by (nonlinear_arith)
            requires
                digits_value(a1) > digits_value(b1),
                digits_value(a1) * 10 + x < digits_value(b1) * 10 + y,
                0 <= x < 10,
                0 <= y < 10,
        ;
    }
}

/// `a < b` lexicographically.
pub fn chars_lt(a: &Vec<char>, b: &Vec<char>) -> (r: bool)
    ensures
        r == seq_lt(a@, b@),
{
    let mut i: usize = 0;
    assert(a@.skip(0) =~= a@);
    assert(b@.skip(0) =~= b@);
    while i < a.len() && i < b.len() && a[i] == b[i]
        invariant
            i <= a.len(),
            i <= b.len(),
            seq_lt(a@, b@) == seq_lt(a@.skip(i as int), b@.skip(i as int)),
        decreases a.len() - i,
    {
        assert(a@.skip(i as int).drop_first() =~= a@.skip(i + 1));
        assert(b@.skip(i as int).drop_first() =~= b@.skip(i + 1));
        i = i + 1;
    }
    if i == a.len() {
        i < b.len()
    } else if i == b.len() {
        false
    } else {
        a[i] < b[i]
    }
}

/// `a == b` as char sequences.
pub fn chars_eq(a: &Vec<char>, b: &Vec<char>) -> (r: bool)
    ensures
        r == (a@ == b@),
{
    if a.len() != b.len() {
        return false;
    }
    let mut i: usize = 0;
    while i < a.len()
        invariant
            i <= a.len(),
            a.len() == b.len(),
            forall|k: int| 0 <= k < i ==> a@[k] == b@[k],
        decreases a.len() - i,
    {
        if a[i] != b[i] {
            return false;
        }
        i = i + 1;
    }
    assert(a@ =~= b@);
    true
}

} // verus!

verus! {

/// Keys in strictly increasing lexicographic order (hence distinct).
pub open spec fn strictly_sorted(ks: Seq<Seq<char>>) -> bool {
    forall|a: int, b: int| 0 <= a < b < ks.len() ==> seq_lt(ks[a], ks[b])
}

/// The views of a vector of char vectors.
pub open spec fn views(v: Seq<Vec<char>>) -> Seq<Seq<char>> {
    v.map_values(|x: Vec<char>| x@)
}

/// Where `d` belongs in `ks`: every key before `j` is smaller, and the key at
/// `j`, if any, is `d` itself when `found` and larger otherwise.
pub open spec fn is_slot(ks: Seq<Seq<char>>, d: Seq<char>, j: int, found: bool) -> bool {
    &&& 0 <= j <= ks.len()
    &&& forall|a: int| 0 <= a < j ==> seq_lt(#[trigger] ks[a], d)
    &&& found ==> j < ks.len() && ks[j] == d
    &&& !found ==> (j == ks.len() || seq_lt(d, ks[j]))
}



pub proof fn lemma_slot_insert(ks: Seq<Seq<char>>, d: Seq<char>, j: int)
    requires
        strictly_sorted(ks),
        is_slot(ks, d, j, false),
    ensures
        strictly_sorted(ks.insert(j, d)),
{
    let r = ks.insert(j, d);
    assert forall|a: int, b: int| 0 <= a < b < r.len() implies seq_lt(r[a], r[b]) by {
        if b < j {
        } else if b == j {
        } else if a > j {
            assert(r[a] == ks[a - 1]);
            assert(r[b] == ks[b - 1]);
        } else {
            assert(r[b] == ks[b - 1]);
            if b - 1 > j {
                lemma_seq_lt_transitive(d, ks[j], ks[b - 1]);
            }
            if a < j {
                lemma_seq_lt_transitive(r[a], d, r[b]);
            }
        }
    }
}

/// `d` added to sorted keys in its place, unless it is already there.
pub open spec fn insert_key(ks: Seq<Seq<char>>, d: Seq<char>) -> Seq<Seq<char>>
    decreases ks.len(),
{
    if ks.len() == 0 {
        seq![d]
    } else if seq_lt(ks.last(), d) {
        ks.push(d)
    } else if ks.last() == d {
        ks
    } else {
        insert_key(ks.drop_last(), d).push(ks.last())
    }
}

/// The distinct keys of `rk` in ascending order.
pub open spec fn sorted_keys(rk: Seq<Seq<char>>) -> Seq<Seq<char>>
    decreases rk.len(),
{
    if rk.len() == 0 {
        Seq::empty()
    } else {
        insert_key(sorted_keys(rk.drop_last()), rk.last())
    }
}

pub proof fn lemma_insert_key(ks: Seq<Seq<char>>, d: Seq<char>, j: int, found: bool)
    requires
        strictly_sorted(ks),
        is_slot(ks, d, j, found),
    ensures
        insert_key(ks, d) == (if found {
            ks
        } else {
            ks.insert(j, d)
        }),
    decreases ks.len(),
{
    lemma_seq_lt_irreflexive(d);
    if ks.len() == 0 {
        assert(ks.insert(j, d) =~= seq![d]);
    } else {
        let n = ks.len() - 1;
        let last = ks[n];
        lemma_seq_lt_total(last, d);
        if seq_lt(last, d) {
            if j <= n {
                if found {
                    if j < n {
                        lemma_seq_lt_transitive(d, last, d);
                    } else {
                    }
                } else {
                    if j < n {
                        lemma_seq_lt_transitive(d, ks[j], last);
                    }
                    lemma_seq_lt_transitive(d, last, d);
                }
            }
            assert(ks.insert(j, d) =~= ks.push(d));
        } else if last == d {
            if found {
                if j < n {
                }
            } else {
                if j <= n {
                    if j < n {
                        lemma_seq_lt_transitive(d, ks[j], last);
                    }
                }
            }
        } else {
            let t = ks.drop_last();
            if found && j == n {
            }
            assert(j <= n);
            assert(strictly_sorted(t));
            assert(is_slot(t, d, j, found));
            lemma_insert_key(t, d, j, found);
            if found {
                assert(t.push(last) =~= ks);
            } else {
                assert(t.insert(j, d).push(last) =~= ks.insert(j, d));
            }
        }
    }
}

/// Finds the slot of `d` in strictly sorted keys.
pub fn find_slot(keys: &Vec<Vec<char>>, d: &Vec<char>) -> (r: (usize, bool))
    requires
        strictly_sorted(views(keys@)),
    ensures
        is_slot(views(keys@), d@, r.0 as int, r.1),
{
    let ghost ks = views(keys@);
    let mut j: usize = 0;
    while j < keys.len() && chars_lt(&keys[j], d)
        invariant
            j <= keys.len(),
            ks == views(keys@),
            forall|a: int| 0 <= a < j ==> seq_lt(#[trigger] ks[a], d@),
        decreases keys.len() - j,
    {
        j = j + 1;
    }
    if j < keys.len() {
        if chars_eq(&keys[j], d) {
            return (j, true);
        }
        proof {
            lemma_seq_lt_total(ks[j as int], d@);
        }
    }
    (j, false)
}

} // verus!

verus! {

/// `w` names, for every key of `rk`, a position of that key in `ks`.
pub open spec fn covers_via(ks: Seq<Seq<char>>, rk: Seq<Seq<char>>, w: Seq<int>) -> bool {
    &&& w.len() == rk.len()
    &&& forall|k: int| 0 <= k < rk.len() ==> 0 <= #[trigger] w[k] < ks.len() && ks[w[k]] == rk[k]
}

/// `b` names, for every key of `ks`, a position of that key in `rk`.
pub open spec fn within_via(ks: Seq<Seq<char>>, rk: Seq<Seq<char>>, b: Seq<int>) -> bool {
    &&& b.len() == ks.len()
    &&& forall|j: int| 0 <= j < ks.len() ==> 0 <= #[trigger] b[j] < rk.len() && rk[b[j]] == ks[j]
}

/// Witnesses after inserting a new key at `j`.
pub open spec fn shift_from(w: Seq<int>, j: int) -> Seq<int> {
    Seq::new(w.len(), |k: int| if w[k] >= j { w[k] + 1 } else { w[k] })
}

pub proof fn lemma_cover_insert(
    ks: Seq<Seq<char>>,
    rk: Seq<Seq<char>>,
    w: Seq<int>,
    b: Seq<int>,
    j: int,
    d: Seq<char>,
)
    requires
        covers_via(ks, rk, w),
        within_via(ks, rk, b),
        0 <= j <= ks.len(),
    ensures
        covers_via(ks.insert(j, d), rk.push(d), shift_from(w, j).push(j)),
        within_via(ks.insert(j, d), rk.push(d), b.insert(j, rk.len() as int)),
{
    let ks2 = ks.insert(j, d);
    let rk2 = rk.push(d);
    let w2 = shift_from(w, j).push(j);
    assert forall|k: int| 0 <= k < rk2.len() implies 0 <= #[trigger] w2[k] < ks2.len() && ks2[w2[k]]
        == rk2[k] by {
        if k < rk.len() {
            assert(rk2[k] == rk[k]);
            assert(0 <= w[k] < ks.len() && ks[w[k]] == rk[k]);
        }
    }
    let b2 = b.insert(j, rk.len() as int);
    assert forall|a: int| 0 <= a < ks2.len() implies 0 <= #[trigger] b2[a] < rk2.len() && rk2[b2[a]]
        == ks2[a] by {
        if a < j {
            assert(b2[a] == b[a]);
            assert(0 <= b[a] < rk.len() && rk[b[a]] == ks[a]);
        } else if a > j {
            assert(b2[a] == b[a - 1]);
            assert(0 <= b[a - 1] < rk.len() && rk[b[a - 1]] == ks[a - 1]);
        }
    }
}

pub proof fn lemma_cover_found(
    ks: Seq<Seq<char>>,
    rk: Seq<Seq<char>>,
    w: Seq<int>,
    b: Seq<int>,
    j: int,
    d: Seq<char>,
)
    requires
        covers_via(ks, rk, w),
        within_via(ks, rk, b),
        0 <= j < ks.len(),
        ks[j] == d,
    ensures
        covers_via(ks, rk.push(d), w.push(j)),
        within_via(ks, rk.push(d), b),
{
    let rk2 = rk.push(d);
    let w2 = w.push(j);
    assert forall|k: int| 0 <= k < rk2.len() implies 0 <= #[trigger] w2[k] < ks.len() && ks[w2[k]]
        == rk2[k] by {
        if k < rk.len() {
            assert(rk2[k] == rk[k]);
        }
    }
    assert forall|a: int| 0 <= a < ks.len() implies 0 <= #[trigger] b[a] < rk2.len() && rk2[b[a]]
        == ks[a] by {
        assert(rk2[b[a]] == rk[b[a]]);
    }
}

} // verus!

verus! {

/// The distinct keys of `rk`, in strictly increasing order, each with the
/// index of a position of `rk` that holds it.
pub fn distinct_sorted(rk: &Vec<Vec<char>>) -> (r: (Vec<Vec<char>>, Vec<usize>))
    ensures
        strictly_sorted(views(r.0@)),
        views(r.0@) == sorted_keys(views(rk@)),
        r.1.len() == r.0.len(),
        forall|j: int|
            0 <= j < r.0.len() ==> (#[trigger] r.1@[j]) < rk.len() && rk@[r.1@[j] as int]@
                == r.0@[j]@,
        forall|k: int| 0 <= k < rk.len() ==> views(r.0@).contains(#[trigger] rk@[k]@),
{
    let n = rk.len();
    let mut keys: Vec<Vec<char>> = Vec::new();
    let mut rep: Vec<usize> = Vec::new();
    let ghost mut w: Seq<int> = Seq::empty();
    let mut i: usize = 0;
    while i < n
        invariant
            n == rk.len(),
            i <= n,
            strictly_sorted(views(keys@)),
            rep.len() == keys.len(),
            forall|j: int|
                0 <= j < keys.len() ==> (#[trigger] rep@[j]) < i && rk@[rep@[j] as int]@
                    == keys@[j]@,
            covers_via(views(keys@), views(rk@).take(i as int), w),
            views(keys@) == sorted_keys(views(rk@).take(i as int)),
        decreases n - i,
    {
        let d = rk[i].clone();
        let ghost ks = views(keys@);
        let ghost rkp = views(rk@).take(i as int);
        let ghost b = rep@.map_values(|x: usize| x as int);
        assert(views(rk@).take(i + 1) =~= rkp.push(d@));
        assert(within_via(ks, rkp, b)) by {
            assert forall|j: int| 0 <= j < ks.len() implies 0 <= #[trigger] b[j] < rkp.len()
                && rkp[b[j]] == ks[j] by {
                assert(rep@[j] < i);
            }
        }
        let (j, found) = find_slot(&keys, &d);
        proof {
            lemma_insert_key(ks, d@, j as int, found);
            assert(views(rk@).take(i + 1).drop_last() =~= rkp);
        }
        if found {
            proof {
                lemma_cover_found(ks, rkp, w, b, j as int, d@);
                w = w.push(j as int);
            }
        } else {
            proof {
                lemma_slot_insert(ks, d@, j as int);
                lemma_cover_insert(ks, rkp, w, b, j as int, d@);
                w = shift_from(w, j as int).push(j as int);
            }
            let ghost old_rep = rep@;
            let ghost old_keys = keys@;
            keys.insert(j, d);
            rep.insert(j, i);
            assert(views(keys@) =~= ks.insert(j as int, d@));
            assert forall|a: int|
                0 <= a < keys.len() implies (#[trigger] rep@[a]) < i + 1 && rk@[rep@[a] as int]@
                    == keys@[a]@ by {
                if a < j {
                    assert(rep@[a] == old_rep[a] && keys@[a] == old_keys[a]);
                } else if a > j {
                    assert(rep@[a] == old_rep[a - 1] && keys@[a] == old_keys[a - 1]);
                }
            }
        }
        i = i + 1;
    }
    let ghost rkv = views(rk@);
    let ghost kv = views(keys@);
    assert(rkv.take(n as int) =~= rkv);
    assert(covers_via(kv, rkv, w));
    let r = (keys, rep);
    assert forall|k: int| 0 <= k < rk.len() implies views(r.0@).contains(#[trigger] rk@[k]@) by {
        let j = w[k];
        assert(0 <= j < kv.len() && kv[j] == rkv[k]);
        assert(rkv[k] == rk@[k]@);
        assert(views(r.0@)[j] == rk@[k]@);
    }
    r
}

} // verus!

verus! {

/// Unicode `White_Space`, the property `char::is_whitespace` tests.
pub open spec fn is_white_space(c: char) -> bool {
    let u = c as u32;
    (0x09 <= u <= 0x0d) || u == 0x20 || u == 0x85 || u == 0xa0 || u == 0x1680 || (0x2000 <= u
        <= 0x200a) || u == 0x2028 || u == 0x2029 || u == 0x202f || u == 0x205f || u == 0x3000
}

/// `char::is_whitespace`.
pub fn is_whitespace(c: char) -> (r: bool)
    ensures
        r == is_white_space(c),
{
    let u = c as u32;
    (0x09 <= u && u <= 0x0d) || u == 0x20 || u == 0x85 || u == 0xa0 || u == 0x1680 || (0x2000 <= u
        && u <= 0x200a) || u == 0x2028 || u == 0x2029 || u == 0x202f || u == 0x205f || u == 0x3000
}

/// `s` without leading white space.
pub open spec fn trim_start(s: Seq<char>) -> Seq<char>
    decreases s.len(),
{
    if s.len() > 0 && is_white_space(s[0]) {
        trim_start(s.drop_first())
    } else {
        s
    }
}

/// `s` without trailing white space.
pub open spec fn trim_end(s: Seq<char>) -> Seq<char>
    decreases s.len(),
{
    if s.len() > 0 && is_white_space(s.last()) {
        trim_end(s.drop_last())
    } else {
        s
    }
}

/// `str::trim`: both ends.
pub open spec fn trim(s: Seq<char>) -> Seq<char> {
    trim_end(trim_start(s))
}

/// `str::trim`, on chars.
pub fn trim_chars(cs: &Vec<char>) -> (r: Vec<char>)
    ensures
        r@ == trim(cs@),
{
    let n = cs.len();
    let mut i: usize = 0;
    assert(cs@.skip(0) =~= cs@);
    while i < n && is_whitespace(cs[i])
        invariant
            n == cs.len(),
            i <= n,
            trim_start(cs@) == trim_start(cs@.skip(i as int)),
        decreases n - i,
    {
        assert(cs@.skip(i as int).drop_first() =~= cs@.skip(i + 1));
        i = i + 1;
    }
    let mut j: usize = n;
    assert(cs@.skip(i as int) =~= cs@.subrange(i as int, j as int));
    while j > i && is_whitespace(cs[j - 1])
        invariant
            i <= j <= n,
            n == cs.len(),
            trim(cs@) == trim_end(cs@.subrange(i as int, j as int)),
        decreases j,
    {
        assert(cs@.subrange(i as int, j as int).drop_last() =~= cs@.subrange(i as int, j - 1));
        j = j - 1;
    }
    let mut r: Vec<char> = Vec::new();
    let mut k: usize = i;
    while k < j
        invariant
            i <= k <= j <= n,
            n == cs.len(),
            r@ == cs@.subrange(i as int, k as int),
        decreases j - k,
    {
        r.push(cs[k]);
        k = k + 1;
        assert(r@ =~= cs@.subrange(i as int, k as int));
    }
    r
}

/// `char::to_ascii_lowercase`.
pub open spec fn ascii_lower(c: char) -> char {
    if 'A' <= c <= 'Z' {
        ((c as u32) + 32) as char
    } else {
        c
    }
}

pub open spec fn ascii_lower_seq(s: Seq<char>) -> Seq<char> {
    s.map_values(|c: char| ascii_lower(c))
}

/// `str::to_ascii_lowercase`, on chars.
pub fn ascii_lowercase(cs: &Vec<char>) -> (r: Vec<char>)
    ensures
        r@ == ascii_lower_seq(cs@),
{
    let mut r: Vec<char> = Vec::new();
    for i in 0..cs.len()
        invariant
            r@ == ascii_lower_seq(cs@.take(i as int)),
    {
        let c = cs[i];
        let l = if 'A' <= c && c <= 'Z' {
            char_from_u32_ascii((c as u32) + 32)
        } else {
            c
        };
        r.push(l);
        assert(ascii_lower_seq(cs@.take(i + 1)) =~= ascii_lower_seq(cs@.take(i as int)).push(
            ascii_lower(c),
        ));
    }
    assert(cs@.take(cs.len() as int) =~= cs@);
    r
}

/// The char of an ASCII code point.
fn char_from_u32_ascii(u: u32) -> (c: char)
    requires
        u < 128,
    ensures
        c == u as char,
{
    let b: u8 = u as u8;
    b as char
}

} // verus!
