//! Text: decimal numbers, case, splitting and matching, over `Seq<char>`.

use vstd::prelude::*;

verus! {

/// `String::push` appends one character.
pub assume_specification[ String::push ](s: &mut String, c: char)
    ensures
        final(s)@ == old(s)@.push(c),
;

// ---------------------------------------------------------------------------
// Characters in and out of strings
// ---------------------------------------------------------------------------

/// The characters of `s`.
pub fn to_chars(s: &str) -> (out: Vec<char>)
    ensures
        out@ == s@,
{
    let mut out: Vec<char> = Vec::new();
    for c in it: s.chars()
        invariant
            it.seq() == s@,
            out@ == it.seq().take(it.index()),
    {
        out.push(c);
        assert(it.seq().take(it.index() + 1) =~= it.seq().take(it.index()).push(c));
    }
    assert(out@ =~= s@);
    out
}

/// The string made of the characters `from..to` of `v`.
pub fn from_chars(v: &Vec<char>, from: usize, to: usize) -> (out: String)
    requires
        from <= to <= v@.len(),
    ensures
        out@ == v@.subrange(from as int, to as int),
{
    let mut out = String::new();
    let mut i: usize = from;
    while i < to
        invariant
            from <= i <= to <= v@.len(),
            out@ == v@.subrange(from as int, i as int),
        decreases to - i,
    {
        out.push(v[i]);
        assert(v@.subrange(from as int, i + 1) =~= v@.subrange(from as int, i as int).push(v@[i as int]));
        i += 1;
    }
    out
}

/// Whether two strings hold the same characters.
pub fn same(a: &str, b: &str) -> (r: bool)
    ensures
        r == (a@ == b@),
{
    let x: String = a.to_owned();
    let y: String = b.to_owned();
    x == y
}

// ---------------------------------------------------------------------------
// Decimal numbers
// ---------------------------------------------------------------------------

/// The character for a digit below ten.
pub open spec fn digit_char(d: int) -> char {
    (('0' as int) + d) as char
}

/// `n` in decimal, without leading zeros (`0` is `"0"`).
pub open spec fn decimal(n: nat) -> Seq<char>
    decreases n,
{
    if n < 10 {
        seq![digit_char(n as int)]
    } else {
        decimal(n / 10).push(digit_char((n % 10) as int))
    }
}

/// A digit as a character.
fn digit(d: u8) -> (c: char)
    requires
        d < 10,
    ensures
        c == digit_char(d as int),
{
    (48u8 + d) as char
}

/// `n` in decimal.
pub fn decimal_text(n: u64) -> (out: String)
    ensures
        out@ == decimal(n as nat),
    decreases n,
{
    if n < 10 {
        let mut out = String::new();
        out.push(digit(n as u8));
        assert(out@ =~= decimal(n as nat));
        out
    } else {
        let mut out = decimal_text(n / 10);
        out.push(digit((n % 10) as u8));
        out
    }
}

/// A decimal digit.
pub open spec fn is_digit(c: char) -> bool {
    '0' <= c <= '9'
}

/// Only decimal digits.
pub open spec fn all_digits(s: Seq<char>) -> bool {
    forall|i: int| 0 <= i < s.len() ==> is_digit(#[trigger] s[i])
}

/// The value of a run of decimal digits, most significant first.
pub open spec fn digits_value(s: Seq<char>) -> nat
    decreases s.len(),
{
    if s.len() == 0 {
        0
    } else {
        digits_value(s.drop_last()) * 10 + (s.last() as int - '0' as int) as nat
    }
}

/// What follows an optional leading `+`.
pub open spec fn unsigned_part(s: Seq<char>) -> Seq<char> {
    if s.len() > 0 && s[0] == '+' {
        s.skip(1)
    } else {
        s
    }
}

/// The number written in `s`: an optional `+` and at least one digit.
pub open spec fn number(s: Seq<char>) -> Option<nat> {
    let body = unsigned_part(s);
    if body.len() > 0 && all_digits(body) {
        Some(digits_value(body))
    } else {
        None
    }
}

/// The number written in `s`, where it fits 64 bits.
pub open spec fn number_u64(s: Seq<char>) -> Option<u64> {
    match number(s) {
        Some(n) => if n <= u64::MAX {
            Some(n as u64)
        } else {
            None
        },
        None => None,
    }
}

proof fn lemma_digits_value_take(s: Seq<char>, i: int)
    requires
        0 <= i <= s.len(),
        all_digits(s),
    ensures
        digits_value(s.take(i)) <= digits_value(s),
    decreases s.len(),
{
    if i < s.len() {
        assert(all_digits(s.drop_last()));
        assert(s.drop_last().take(i) =~= s.take(i));
        lemma_digits_value_take(s.drop_last(), i);
        assert(is_digit(s[s.len() - 1]));
    } else {
        assert(s.take(i) =~= s);
    }
}

/// The number written in `s`, where it fits 64 bits.
pub fn parse_u64(s: &str) -> (r: Option<u64>)
    ensures
        r == number_u64(s@),
{
    let v = to_chars(s);
    let n = v.len();
    let start: usize = if n > 0 && v[0] == '+' { 1 } else { 0 };
    let ghost body = unsigned_part(s@);
    assert(body =~= v@.skip(start as int));
    if start == n {
        return None;
    }
    let mut value: u64 = 0;
    let mut i: usize = start;
    while i < n
        invariant
            n == v@.len(),
            start <= i <= n,
            start < n,
            v@ == s@,
            body == v@.skip(start as int),
            body == unsigned_part(s@),
            all_digits(body.take(i - start)),
            value == digits_value(body.take(i - start)),
        decreases n - i,
    {
        let c = v[i];
        assert(c == body[i - start]);
        if !('0' <= c && c <= '9') {
            return None;
        }
        let d: u64 = (c as u32 - 48) as u64;
        let ghost next = body.take(i - start + 1);
        proof {
            assert(next.drop_last() =~= body.take(i - start));
            assert(next.last() == c);
            assert(digits_value(next) == value * 10 + d);
            assert(all_digits(next));
        }
        if value > (u64::MAX - d) / 10 {
            proof {
                assert(value * 10 + d > u64::MAX);
                if all_digits(body) {
                    lemma_digits_value_take(body, i - start + 1);
                }
            }
            return None;
        }
        value = value * 10 + d;
        i += 1;
    }
    assert(body.take(n - start) =~= body);
    Some(value)
}

/// `n` in decimal, with zeros in front up to `width` characters.
pub open spec fn padded(n: nat, width: nat) -> Seq<char> {
    let d = decimal(n);
    if d.len() >= width {
        d
    } else {
        Seq::new((width - d.len()) as nat, |i: int| '0') + d
    }
}

proof fn lemma_leading_zeros(s: Seq<char>, k: nat)
    ensures
        all_digits(s) ==> all_digits(Seq::new(k, |i: int| '0') + s),
        digits_value(Seq::new(k, |i: int| '0') + s) == digits_value(s),
    decreases s.len() + k,
{
    let z = Seq::new(k, |i: int| '0');
    if s.len() > 0 {
        lemma_leading_zeros(s.drop_last(), k);
        assert((z + s).drop_last() =~= z + s.drop_last());
    } else if k > 0 {
        lemma_leading_zeros(s, (k - 1) as nat);
        assert((z + s).drop_last() =~= Seq::new((k - 1) as nat, |i: int| '0') + s);
        assert((z + s).last() == '0');
    } else {
        assert(z + s =~= s);
    }
}

/// Writing a number in decimal, padded or not, and reading it back gives the
/// number.
pub proof fn decimal_round_trip(n: nat, width: nat)
    ensures
        decimal(n).len() > 0,
        all_digits(decimal(n)),
        digits_value(decimal(n)) == n,
        number(decimal(n)) == Some(n),
        all_digits(padded(n, width)),
        number(padded(n, width)) == Some(n),
        padded(n, width).len() >= width,
{
    lemma_decimal(n);
    assert(is_digit(decimal(n)[0]));
    let k = (width - decimal(n).len()) as nat;
    lemma_leading_zeros(decimal(n), k);
    assert(is_digit(padded(n, width)[0]));
}

/// A number of more than one digit does not begin with a zero.
pub proof fn decimal_has_no_leading_zero(n: nat)
    ensures
        decimal(n).len() > 1 ==> decimal(n)[0] != '0',
        n > 0 ==> decimal(n)[0] != '0',
    decreases n,
{
    if n >= 10 {
        decimal_has_no_leading_zero(n / 10);
        lemma_decimal(n / 10);
        assert(decimal(n)[0] == decimal(n / 10)[0]);
    }
}

proof fn lemma_decimal(n: nat)
    ensures
        decimal(n).len() > 0,
        all_digits(decimal(n)),
        digits_value(decimal(n)) == n,
    decreases n,
{
    if n < 10 {
        assert(decimal(n).drop_last() =~= Seq::<char>::empty());
        assert(digits_value(Seq::<char>::empty()) == 0);
        assert(decimal(n).last() == digit_char(n as int));
    } else {
        lemma_decimal(n / 10);
        assert(decimal(n).drop_last() =~= decimal(n / 10));
    }
}

/// `n` in decimal, with zeros in front up to `width` characters.
pub fn padded_text(n: u64, width: usize) -> (out: String)
    ensures
        out@ == padded(n as nat, width as nat),
{
    let d = decimal_text(n);
    let len = to_chars(d.as_str()).len();
    let mut out = String::new();
    let mut i: usize = len;
    while i < width
        invariant
            len == d@.len(),
            out@ =~= Seq::new((i - len) as nat, |j: int| '0'),
            len <= i,
            i <= width || i == len,
        decreases width - i,
    {
        out.push('0');
        i += 1;
    }
    out.append(d.as_str());
    assert(out@ =~= padded(n as nat, width as nat));
    out
}

// ---------------------------------------------------------------------------
// Case
// ---------------------------------------------------------------------------

/// The lowercase form of text beyond ASCII, as Unicode defines it.
pub uninterp spec fn unicode_lowercase(s: Seq<char>) -> Seq<char>;

/// Only ASCII characters.
pub open spec fn all_ascii(s: Seq<char>) -> bool {
    forall|i: int| 0 <= i < s.len() ==> (#[trigger] s[i] as int) < 128
}

/// An ASCII letter in lowercase; any other character as it is.
pub open spec fn lower_char(c: char) -> char {
    if 'A' <= c <= 'Z' {
        ((c as int) + 32) as char
    } else {
        c
    }
}

/// `s` in lowercase.
pub open spec fn lowercase(s: Seq<char>) -> Seq<char> {
    if all_ascii(s) {
        s.map_values(|c: char| lower_char(c))
    } else {
        unicode_lowercase(s)
    }
}

/// `t` has no characters but those of `s`.
pub open spec fn made_of(t: Seq<char>, s: Seq<char>) -> bool {
    forall|i: int| 0 <= i < t.len() ==> s.contains(#[trigger] t[i])
}

/// `str::to_lowercase`: on ASCII text it maps `A..=Z` to `a..=z` and keeps
/// everything else; beyond ASCII it is a function of the text, given by
/// Unicode's tables, which is only named here. What it gives is lowercase: none
/// of its characters has a lowercase form other than itself, so text made of
/// them stays as it is.
#[verifier::external_body]
pub(crate) fn to_lowercase(s: &str) -> (out: String)
    ensures
        all_ascii(s@) ==> out@ == s@.map_values(|c: char| lower_char(c)),
        !all_ascii(s@) ==> out@ == unicode_lowercase(s@),
        forall|t: Seq<char>| #[trigger] made_of(t, out@) ==> lowercase(t) == t,
{
    s.to_lowercase()
}

// ---------------------------------------------------------------------------
// Dropping, replacing and splitting
// ---------------------------------------------------------------------------

/// `s` without the characters of `drop`.
pub open spec fn without(s: Seq<char>, drop: Seq<char>) -> Seq<char> {
    s.filter(|c: char| !drop.contains(c))
}

/// Whether `c` is one of the characters of `set`.
fn one_of(c: char, set: &Vec<char>) -> (r: bool)
    ensures
        r == set@.contains(c),
{
    let mut i: usize = 0;
    while i < set.len()
        invariant
            i <= set@.len(),
            forall|j: int| 0 <= j < i ==> set@[j] != c,
        decreases set@.len() - i,
    {
        if set[i] == c {
            return true;
        }
        i += 1;
    }
    false
}

/// `s` without the characters of `drop`.
pub fn remove_chars(s: &str, drop: &str) -> (out: String)
    ensures
        out@ == without(s@, drop@),
{
    let v = to_chars(s);
    let set = to_chars(drop);
    let mut out = String::new();
    let mut i: usize = 0;
    let ghost keep = |c: char| !drop@.contains(c);
    assert(v@.take(0) =~= Seq::<char>::empty());
    proof {
        reveal(Seq::filter);
    }
    while i < v.len()
        invariant
            i <= v@.len(),
            v@ == s@,
            set@ == drop@,
            keep == (|c: char| !drop@.contains(c)),
            out@ == v@.take(i as int).filter(keep),
        decreases v@.len() - i,
    {
        let c = v[i];
        proof {
            reveal(Seq::filter);
            assert(v@.take(i + 1).drop_last() =~= v@.take(i as int));
            assert(v@.take(i + 1).last() == c);
        }
        if !one_of(c, &set) {
            out.push(c);
        }
        i += 1;
    }
    assert(v@.take(v@.len() as int) =~= s@);
    out
}

/// `s` with every `from` turned into `to`.
pub fn replace_char(s: &str, from: char, to: char) -> (out: String)
    ensures
        out@ == s@.map_values(|c: char| if c == from { to } else { c }),
{
    let v = to_chars(s);
    let mut out = String::new();
    let mut i: usize = 0;
    while i < v.len()
        invariant
            i <= v@.len(),
            v@ == s@,
            out@.len() == i,
            forall|j: int| 0 <= j < i ==> #[trigger] out@[j] == (if s@[j] == from { to } else { s@[j] }),
        decreases v@.len() - i,
    {
        let c = v[i];
        out.push(if c == from { to } else { c });
        i += 1;
    }
    assert(out@ =~= s@.map_values(|c: char| if c == from { to } else { c }));
    out
}

/// The pieces of `s` between the `sep` characters; one piece more than there
/// are separators.
pub open spec fn split(s: Seq<char>, sep: char) -> Seq<Seq<char>>
    decreases s.len(),
{
    if s.len() == 0 {
        seq![Seq::<char>::empty()]
    } else {
        let front = split(s.drop_last(), sep);
        if s.last() == sep {
            front.push(Seq::<char>::empty())
        } else {
            front.drop_last().push(front.last().push(s.last()))
        }
    }
}

/// There is always at least one piece.
pub proof fn lemma_split_nonempty(s: Seq<char>, sep: char)
    ensures
        split(s, sep).len() >= 1,
    decreases s.len(),
{
    if s.len() > 0 {
        lemma_split_nonempty(s.drop_last(), sep);
    }
}

/// Splitting around one more separator joins the two lists of pieces.
pub proof fn lemma_split_join(a: Seq<char>, b: Seq<char>, sep: char)
    ensures
        split(a.push(sep) + b, sep) == split(a, sep) + split(b, sep),
    decreases b.len(),
{
    let whole = a.push(sep) + b;
    if b.len() == 0 {
        assert(whole =~= a.push(sep));
        assert(whole.drop_last() =~= a);
        assert(split(a, sep).push(Seq::<char>::empty()) =~= split(a, sep) + split(b, sep));
    } else {
        lemma_split_join(a, b.drop_last(), sep);
        lemma_split_nonempty(b.drop_last(), sep);
        assert(whole.drop_last() =~= a.push(sep) + b.drop_last());
        assert(whole.last() == b.last());
        let front = split(a, sep) + split(b.drop_last(), sep);
        assert(front.drop_last() =~= split(a, sep) + split(b.drop_last(), sep).drop_last());
        assert(front.last() == split(b.drop_last(), sep).last());
        assert(split(whole, sep) =~= split(a, sep) + split(b, sep));
    }
}

/// Text without a separator is one piece.
pub proof fn lemma_split_whole(s: Seq<char>, sep: char)
    requires
        !s.contains(sep),
    ensures
        split(s, sep) == seq![s],
    decreases s.len(),
{
    if s.len() > 0 {
        assert forall|i: int| 0 <= i < s.drop_last().len() implies s.drop_last()[i] != sep by {
            assert(s[i] != sep);
        }
        lemma_split_whole(s.drop_last(), sep);
        assert(s[s.len() - 1] != sep);
        assert(split(s, sep) =~= seq![s.drop_last().push(s.last())]);
        assert(s.drop_last().push(s.last()) =~= s);
    } else {
        assert(s =~= Seq::<char>::empty());
    }
}

/// The pieces of `s` between the `sep` characters.
pub fn split_text(s: &str, sep: char) -> (out: Vec<String>)
    ensures
        out.deep_view() == split(s@, sep),
{
    let v = to_chars(s);
    let mut done: Vec<String> = Vec::new();
    let mut piece = String::new();
    let mut i: usize = 0;
    assert(v@.take(0) =~= Seq::<char>::empty());
    assert(done.deep_view().push(piece@) =~= split(v@.take(0), sep));
    while i < v.len()
        invariant
            i <= v@.len(),
            v@ == s@,
            done.deep_view().push(piece@) == split(v@.take(i as int), sep),
        decreases v@.len() - i,
    {
        let c = v[i];
        let ghost before = done.deep_view();
        proof {
            assert(v@.take(i + 1).drop_last() =~= v@.take(i as int));
            assert(v@.take(i + 1).last() == c);
        }
        if c == sep {
            done.push(piece);
            piece = String::new();
            assert(done.deep_view() =~= before.push(done@.last()@));
            assert(done.deep_view().push(piece@) =~= split(v@.take(i + 1), sep));
        } else {
            let ghost old_piece = piece@;
            piece.push(c);
            assert(before.push(old_piece).drop_last() =~= before);
            assert(done.deep_view().push(piece@) =~= split(v@.take(i + 1), sep));
        }
        i += 1;
    }
    let ghost before = done.deep_view();
    done.push(piece);
    assert(done.deep_view() =~= before.push(done@.last()@));
    assert(v@.take(v@.len() as int) =~= s@);
    done
}

/// Text in which nothing has an uppercase form to lose keeps its shape.
pub proof fn lemma_lowercase_fixed(s: Seq<char>)
    requires
        forall|i: int| 0 <= i < s.len() ==> (#[trigger] s[i] as int) < 128 && !('A' <= s[i] <= 'Z'),
    ensures
        lowercase(s) == s,
{
    assert(s.map_values(|c: char| lower_char(c)) =~= s);
}

/// Dropping characters that do not occur changes nothing.
pub proof fn lemma_without_fixed(s: Seq<char>, drop: Seq<char>)
    requires
        forall|i: int| 0 <= i < s.len() ==> !drop.contains(#[trigger] s[i]),
    ensures
        without(s, drop) == s,
    decreases s.len(),
{
    reveal(Seq::filter);
    if s.len() > 0 {
        assert forall|i: int| 0 <= i < s.drop_last().len() implies !drop.contains(
            #[trigger] s.drop_last()[i],
        ) by {
            assert(s.drop_last()[i] == s[i]);
        }
        lemma_without_fixed(s.drop_last(), drop);
        assert(s.drop_last().push(s.last()) =~= s);
    }
}

/// A character that is dropped leaves no trace, wherever it stood.
pub proof fn lemma_without_insert(s: Seq<char>, i: int, c: char, drop: Seq<char>)
    requires
        0 <= i <= s.len(),
        drop.contains(c),
    ensures
        without(s.insert(i, c), drop) == without(s, drop),
{
    let keep = |x: char| !drop.contains(x);
    let a = s.take(i);
    let m = seq![c];
    let b = s.skip(i);
    assert(s =~= a + b);
    assert(s.insert(i, c) =~= (a + m) + b);
    Seq::filter_distributes_over_add(a + m, b, keep);
    Seq::filter_distributes_over_add(a, m, keep);
    Seq::filter_distributes_over_add(a, b, keep);
    assert(m.filter(keep) =~= Seq::<char>::empty()) by {
        reveal(Seq::filter);
        assert(m.last() == c && !keep(c));
        assert(m.drop_last() =~= Seq::<char>::empty());
        assert(m.drop_last().filter(keep) =~= Seq::<char>::empty());
    }
    assert(a.filter(keep) + Seq::<char>::empty() =~= a.filter(keep));
}

/// What is left after characters were dropped was there before, and is none of
/// those.
pub proof fn lemma_without_members(s: Seq<char>, drop: Seq<char>)
    ensures
        forall|i: int|
            0 <= i < without(s, drop).len() ==> s.contains(#[trigger] without(s, drop)[i])
                && !drop.contains(without(s, drop)[i]),
    decreases s.len(),
{
    reveal(Seq::filter);
    if s.len() > 0 {
        let front = s.drop_last();
        let kept = without(front, drop);
        lemma_without_members(front, drop);
        assert forall|i: int| 0 <= i < without(s, drop).len() implies s.contains(
            #[trigger] without(s, drop)[i],
        ) && !drop.contains(without(s, drop)[i]) by {
            if i < kept.len() {
                let k = choose|k: int| 0 <= k < front.len() && front[k] == kept[i];
                assert(s[k] == kept[i]);
            } else {
                assert(s[s.len() - 1] == without(s, drop)[i]);
            }
        }
    }
}

/// Lowercase goes character by character.
pub proof fn lemma_lowercase_add(a: Seq<char>, b: Seq<char>)
    requires
        all_ascii(a),
        all_ascii(b),
    ensures
        all_ascii(a + b),
        lowercase(a + b) == lowercase(a) + lowercase(b),
{
    assert forall|i: int| 0 <= i < (a + b).len() implies (#[trigger] (a + b)[i] as int) < 128 by {
        if i < a.len() {
            assert((a + b)[i] == a[i]);
        } else {
            assert((a + b)[i] == b[i - a.len()]);
        }
    }
    assert(lowercase(a + b) =~= lowercase(a) + lowercase(b));
}

/// What a text that may be missing says.
pub open spec fn seen(s: Option<String>) -> Option<Seq<char>> {
    match s {
        Some(t) => Some(t@),
        None => None,
    }
}

// ---------------------------------------------------------------------------
// Prefixes, suffixes, parts
// ---------------------------------------------------------------------------

/// `s` begins with `p`.
pub open spec fn begins(s: Seq<char>, p: Seq<char>) -> bool {
    s.len() >= p.len() && s.take(p.len() as int) == p
}

/// `s` ends with `p`.
pub open spec fn finishes(s: Seq<char>, p: Seq<char>) -> bool {
    s.len() >= p.len() && s.skip(s.len() - p.len()) == p
}

/// `p` stands at position `at` in `s`.
pub open spec fn stands_at(s: Seq<char>, p: Seq<char>, at: int) -> bool {
    0 <= at && at + p.len() <= s.len() && s.subrange(at, at + p.len()) == p
}

/// `p` stands somewhere in `s`.
pub open spec fn holds(s: Seq<char>, p: Seq<char>) -> bool {
    exists|at: int| stands_at(s, p, at)
}

/// Whether `p` stands at position `at` in `s`.
fn matches_at(s: &Vec<char>, p: &Vec<char>, at: usize) -> (r: bool)
    requires
        at + p@.len() <= s@.len(),
    ensures
        r == (s@.subrange(at as int, at + p@.len()) == p@),
{
    let n = s.len();
    let mut i: usize = 0;
    while i < p.len()
        invariant
            at + p@.len() <= n == s@.len(),
            i <= p@.len(),
            forall|j: int| 0 <= j < i ==> s@[at + j] == p@[j],
        decreases p@.len() - i,
    {
        if s[at + i] != p[i] {
            assert(s@.subrange(at as int, at + p@.len())[i as int] != p@[i as int]);
            return false;
        }
        i += 1;
    }
    assert(s@.subrange(at as int, at + p@.len()) =~= p@);
    true
}

/// Whether `s` begins with `p`.
pub fn starts_with(s: &str, p: &str) -> (r: bool)
    ensures
        r == begins(s@, p@),
{
    let v = to_chars(s);
    let w = to_chars(p);
    assert(s@.len() >= p@.len() ==> s@.take(p@.len() as int) =~= s@.subrange(0, p@.len() as int));
    v.len() >= w.len() && matches_at(&v, &w, 0)
}

/// Whether `s` ends with `p`.
pub fn ends_with(s: &str, p: &str) -> (r: bool)
    ensures
        r == finishes(s@, p@),
{
    let v = to_chars(s);
    let w = to_chars(p);
    if v.len() < w.len() {
        return false;
    }
    let at: usize = v.len() - w.len();
    assert(s@.skip(at as int) =~= s@.subrange(at as int, at + p@.len()));
    matches_at(&v, &w, at)
}

/// Whether `p` stands somewhere in `s`.
pub fn contains(s: &str, p: &str) -> (r: bool)
    ensures
        r == holds(s@, p@),
{
    let v = to_chars(s);
    let w = to_chars(p);
    if v.len() < w.len() {
        return false;
    }
    let last: usize = v.len() - w.len();
    let mut at: usize = 0;
    loop
        invariant
            v@ == s@,
            w@ == p@,
            at <= last,
            last == v@.len() - w@.len(),
            forall|k: int| 0 <= k < at ==> !stands_at(s@, p@, k),
        decreases last - at,
    {
        if matches_at(&v, &w, at) {
            assert(stands_at(s@, p@, at as int));
            return true;
        }
        assert(!stands_at(s@, p@, at as int));
        if at == last {
            return false;
        }
        at += 1;
    }
}

/// What is left of `s` once the prefix `p` and the suffix `q` are taken off.
pub open spec fn between(s: Seq<char>, p: Seq<char>, q: Seq<char>) -> Option<Seq<char>> {
    if begins(s, p) && finishes(s.skip(p.len() as int), q) {
        Some(s.subrange(p.len() as int, s.len() - q.len()))
    } else {
        None
    }
}

/// Takes the prefix `p` and then the suffix `q` off `s`.
pub fn strip(s: &str, p: &str, q: &str) -> (r: Option<String>)
    ensures
        r.is_some() == between(s@, p@, q@).is_some(),
        r.is_some() ==> r.unwrap()@ == between(s@, p@, q@).unwrap(),
{
    if !starts_with(s, p) {
        return None;
    }
    let v = to_chars(s);
    let np = to_chars(p).len();
    let rest = from_chars(&v, np, v.len());
    assert(rest@ =~= s@.skip(p@.len() as int));
    if !ends_with(rest.as_str(), q) {
        return None;
    }
    let nq = to_chars(q).len();
    let out = from_chars(&v, np, v.len() - nq);
    Some(out)
}

// ---------------------------------------------------------------------------
// Trimming and order
// ---------------------------------------------------------------------------

/// White space, as Unicode has it.
pub open spec fn is_white(c: char) -> bool {
    let n = c as u32;
    ||| 0x09 <= n <= 0x0D
    ||| n == 0x20
    ||| n == 0x85
    ||| n == 0xA0
    ||| n == 0x1680
    ||| 0x2000 <= n <= 0x200A
    ||| n == 0x2028
    ||| n == 0x2029
    ||| n == 0x202F
    ||| n == 0x205F
    ||| n == 0x3000
}

fn white(c: char) -> (r: bool)
    ensures
        r == is_white(c),
{
    let n: u32 = c as u32;
    (0x09 <= n && n <= 0x0D) || n == 0x20 || n == 0x85 || n == 0xA0 || n == 0x1680 || (0x2000 <= n
        && n <= 0x200A) || n == 0x2028 || n == 0x2029 || n == 0x202F || n == 0x205F || n == 0x3000
}

/// `s` without white space at its end.
pub open spec fn trimmed_end(s: Seq<char>) -> Seq<char>
    decreases s.len(),
{
    if s.len() > 0 && is_white(s.last()) {
        trimmed_end(s.drop_last())
    } else {
        s
    }
}

/// `s` without white space at its beginning.
pub open spec fn trimmed_start(s: Seq<char>) -> Seq<char>
    decreases s.len(),
{
    if s.len() > 0 && is_white(s[0]) {
        trimmed_start(s.drop_first())
    } else {
        s
    }
}

/// `s` without white space around it.
pub open spec fn trimmed(s: Seq<char>) -> Seq<char> {
    trimmed_end(trimmed_start(s))
}

/// `s` without white space around it.
pub fn trim(s: &str) -> (out: String)
    ensures
        out@ == trimmed(s@),
{
    let v = to_chars(s);
    let n = v.len();
    let mut from: usize = 0;
    assert(v@.subrange(0, n as int) =~= v@);
    while from < n && white(v[from])
        invariant
            from <= n,
            n == v@.len(),
            trimmed_start(v@) == trimmed_start(v@.subrange(from as int, n as int)),
        decreases n - from,
    {
        assert(v@.subrange(from as int, n as int).drop_first() =~= v@.subrange(from + 1, n as int));
        from += 1;
    }
    let ghost rest = v@.subrange(from as int, n as int);
    assert(trimmed_start(v@) == rest);
    let mut to: usize = n;
    while from < to && white(v[to - 1])
        invariant
            from <= to <= n,
            n == v@.len(),
            rest == v@.subrange(from as int, n as int),
            trimmed_end(rest) == trimmed_end(v@.subrange(from as int, to as int)),
        decreases to - from,
    {
        assert(v@.subrange(from as int, to as int).last() == v@[to - 1]);
        assert(v@.subrange(from as int, to as int).drop_last() =~= v@.subrange(
            from as int,
            to - 1,
        ));
        to -= 1;
    }
    proof {
        let cut = v@.subrange(from as int, to as int);
        if cut.len() > 0 {
            assert(cut.last() == v@[to - 1]);
        }
        assert(trimmed_end(cut) == cut);
    }
    from_chars(&v, from, to)
}

/// Text that is trimmed stays as it is when it is trimmed again.
pub proof fn trim_is_idempotent(s: Seq<char>)
    ensures
        trimmed(trimmed(s)) == trimmed(s),
{
    let a = trimmed_start(s);
    lemma_trimmed_start(s);
    lemma_trimmed_end(a);
    let t = trimmed_end(a);
    if t.len() > 0 {
        assert(t[0] == a[0]);
    }
}

proof fn lemma_trimmed_start(s: Seq<char>)
    ensures
        trimmed_start(s).len() > 0 ==> !is_white(trimmed_start(s)[0]),
    decreases s.len(),
{
    if s.len() > 0 && is_white(s[0]) {
        lemma_trimmed_start(s.drop_first());
    }
}

proof fn lemma_trimmed_end(s: Seq<char>)
    ensures
        trimmed_end(s).len() <= s.len(),
        trimmed_end(s) == s.take(trimmed_end(s).len() as int),
        trimmed_end(s).len() > 0 ==> !is_white(trimmed_end(s).last()),
    decreases s.len(),
{
    if s.len() > 0 && is_white(s.last()) {
        let t = s.drop_last();
        lemma_trimmed_end(t);
        assert(t.take(trimmed_end(t).len() as int) =~= s.take(trimmed_end(t).len() as int));
    } else {
        assert(s.take(s.len() as int) =~= s);
    }
}

/// Whether `a` comes before `b`, character by character.
pub open spec fn comes_before(a: Seq<char>, b: Seq<char>) -> bool
    decreases a.len(),
{
    if b.len() == 0 {
        false
    } else if a.len() == 0 {
        true
    } else if a[0] != b[0] {
        (a[0] as int) < (b[0] as int)
    } else {
        comes_before(a.drop_first(), b.drop_first())
    }
}

/// Whether `a` comes before `b`, character by character.
pub fn less(a: &str, b: &str) -> (r: bool)
    ensures
        r == comes_before(a@, b@),
{
    let x = to_chars(a);
    let y = to_chars(b);
    let mut i: usize = 0;
    assert(x@.skip(0) =~= x@);
    assert(y@.skip(0) =~= y@);
    while i < x.len() && i < y.len() && x[i] == y[i]
        invariant
            i <= x@.len(),
            i <= y@.len(),
            comes_before(x@, y@) == comes_before(x@.skip(i as int), y@.skip(i as int)),
        decreases x@.len() - i,
    {
        assert(x@.skip(i as int).drop_first() =~= x@.skip(i + 1));
        assert(y@.skip(i as int).drop_first() =~= y@.skip(i + 1));
        i += 1;
    }
    if i >= y.len() {
        false
    } else if i >= x.len() {
        true
    } else {
        assert(x@.skip(i as int)[0] == x@[i as int]);
        assert(y@.skip(i as int)[0] == y@[i as int]);
        x[i] < y[i]
    }
}

/// Of two different texts exactly one comes before the other, and what comes
/// before a text that comes before another comes before that one too.
pub proof fn text_order_is_total(a: Seq<char>, b: Seq<char>, c: Seq<char>)
    ensures
        !comes_before(a, a),
        a != b ==> (comes_before(a, b) <==> !comes_before(b, a)),
        comes_before(a, b) && comes_before(b, c) ==> comes_before(a, c),
    decreases a.len() + b.len() + c.len(),
{
    let ra = if a.len() > 0 {
        a.drop_first()
    } else {
        a
    };
    let rb = if b.len() > 0 {
        b.drop_first()
    } else {
        b
    };
    let rc = if c.len() > 0 {
        c.drop_first()
    } else {
        c
    };
    if a.len() + b.len() + c.len() > 0 {
        text_order_is_total(ra, rb, rc);
    }
    if a.len() > 0 && b.len() > 0 && a[0] == b[0] && ra == rb {
        assert(a =~= seq![a[0]] + ra);
        assert(b =~= seq![b[0]] + rb);
    }
    if a.len() == 0 && b.len() == 0 {
        assert(a =~= b);
    }
}

/// Trimming takes the white space off both ends, and nothing else.
pub proof fn trimming_takes_only_the_ends(s: Seq<char>)
    ensures
        exists|a: int, b: int|
            {
                &&& 0 <= a <= b <= s.len()
                &&& trimmed(s) == #[trigger] s.subrange(a, b)
                &&& forall|i: int| 0 <= i < a || b <= i < s.len() ==> is_white(#[trigger] s[i])
                &&& a < b ==> !is_white(s[a]) && !is_white(s[b - 1])
            },
{
    let t = trimmed_start(s);
    let a = s.len() - t.len();
    lemma_front_is_white(s);
    lemma_trimmed_start(s);
    lemma_trimmed_end(t);
    lemma_back_is_white(t);
    let u = trimmed_end(t);
    let b = a + u.len();
    assert(u =~= s.subrange(a, b));
    assert forall|i: int| 0 <= i < a || b <= i < s.len() implies is_white(#[trigger] s[i]) by {
        if b <= i {
            assert(t[i - a] == s[i]);
        }
    }
    if a < b {
        assert(u[0] == t[0] && t[0] == s[a]);
        assert(u.last() == s[b - 1]);
    }
}

proof fn lemma_front_is_white(s: Seq<char>)
    ensures
        trimmed_start(s).len() <= s.len(),
        trimmed_start(s) == s.skip(s.len() - trimmed_start(s).len()),
        forall|i: int|
            0 <= i < s.len() - trimmed_start(s).len() ==> is_white(#[trigger] s[i]),
    decreases s.len(),
{
    if s.len() > 0 && is_white(s[0]) {
        let rest = s.drop_first();
        lemma_front_is_white(rest);
        let t = trimmed_start(s);
        assert(t =~= s.skip(s.len() - t.len()));
        assert forall|i: int| 0 <= i < s.len() - t.len() implies is_white(#[trigger] s[i]) by {
            if i > 0 {
                assert(rest[i - 1] == s[i]);
            }
        }
    } else {
        assert(s.skip(0) =~= s);
    }
}

proof fn lemma_back_is_white(s: Seq<char>)
    ensures
        forall|i: int| trimmed_end(s).len() <= i < s.len() ==> is_white(#[trigger] s[i]),
    decreases s.len(),
{
    if s.len() > 0 && is_white(s.last()) {
        let rest = s.drop_last();
        lemma_back_is_white(rest);
        assert forall|i: int| trimmed_end(s).len() <= i < s.len() implies is_white(
            #[trigger] s[i],
        ) by {
            if i < rest.len() {
                assert(rest[i] == s[i]);
            }
        }
    }
}

/// Text comes before other text where it has the smaller character at the first
/// place at which they differ, or ends there.
pub proof fn first_difference_decides(a: Seq<char>, b: Seq<char>)
    ensures
        comes_before(a, b) <==> exists|i: int|
            {
                &&& 0 <= i <= a.len()
                &&& i < b.len()
                &&& #[trigger] a.take(i) == b.take(i)
                &&& i == a.len() || a[i] < b[i]
            },
    decreases a.len() + b.len(),
{
    let parts = |x: Seq<char>, y: Seq<char>, i: int|
        {
            &&& 0 <= i <= x.len()
            &&& i < y.len()
            &&& x.take(i) == y.take(i)
            &&& i == x.len() || x[i] < y[i]
        };
    if a.len() > 0 && b.len() > 0 {
        let ra = a.drop_first();
        let rb = b.drop_first();
        first_difference_decides(ra, rb);
        if a[0] == b[0] {
            if comes_before(ra, rb) {
                let i = choose|i: int|
                    {
                        &&& 0 <= i <= ra.len()
                        &&& i < rb.len()
                        &&& #[trigger] ra.take(i) == rb.take(i)
                        &&& i == ra.len() || ra[i] < rb[i]
                    };
                let n = i + 1;
                assert(a.take(n) =~= seq![a[0]] + ra.take(i));
                assert(b.take(n) =~= seq![b[0]] + rb.take(i));
                assert(parts(a, b, n));
            }
            assert forall|i: int| #[trigger] parts(a, b, i) implies comes_before(ra, rb) by {
                if i == 0 {
                    assert(false);
                }
                let n = i - 1;
                assert(ra.take(n) =~= a.take(i).drop_first());
                assert(rb.take(n) =~= b.take(i).drop_first());
                assert(ra.take(n) == rb.take(n));
            }
        } else {
            assert forall|i: int| #[trigger] parts(a, b, i) implies i == 0 by {
                if i > 0 {
                    assert(a.take(i)[0] == a[0]);
                    assert(b.take(i)[0] == b[0]);
                }
            }
            if a[0] < b[0] {
                assert(a.take(0) =~= b.take(0));
                assert(parts(a, b, 0));
            }
        }
        assert forall|i: int|
            {
                &&& 0 <= i <= a.len()
                &&& i < b.len()
                &&& #[trigger] a.take(i) == b.take(i)
                &&& i == a.len() || a[i] < b[i]
            } implies comes_before(a, b) by {
            assert(parts(a, b, i));
        }
    } else if b.len() > 0 {
        assert(a.take(0) =~= b.take(0));
        assert(a.len() == 0 && 0 < b.len());
    }
}

/// A number is read digit by digit, with or without a plus in front. What holds
/// anything but digits is none, and neither is an empty text or a lone plus.
pub proof fn numbers_are_read_digit_by_digit(s: Seq<char>, c: char)
    ensures
        number(Seq::empty()) is None,
        number(seq!['+']) is None,
        '0' <= c <= '9' ==> number(seq![c]) == Some((c as int - 48) as nat),
        '0' <= c <= '9' && number(s) is Some ==> number(s.push(c)) == Some(
            (10 * number(s)->0 + (c as int - 48)) as nat,
        ),
        !('0' <= c <= '9') ==> number(s.push(c)) is None,
        number(s) is Some && s[0] != '+' ==> number(seq!['+'] + s) == number(s),
        number(s) is Some ==> '0' <= s.last() <= '9',
        number_u64(s) is Some <==> number(s) is Some && number(s)->0 < 0x1_0000_0000_0000_0000,
        number_u64(s) is Some ==> number_u64(s)->0 == number(s)->0,
{
    let more = s.push(c);
    let one = seq![c];
    let plus = seq!['+'];
    assert(plus.skip(1).len() == 0);
    assert(one.drop_last().len() == 0 && one.last() == c);
    let body = unsigned_part(s);
    let longer = unsigned_part(more);
    if s.len() > 0 {
        assert(more[0] == s[0]);
        assert(longer =~= body.push(c));
        assert(longer.drop_last() =~= body);
        assert(longer.last() == c);
        if number(s) is Some && '0' <= c <= '9' {
            assert forall|i: int| 0 <= i < longer.len() implies is_digit(#[trigger] longer[i]) by {
                if i < body.len() {
                    assert(longer[i] == body[i]);
                }
            }
        }
        if !('0' <= c <= '9') {
            assert(!is_digit(longer[body.len() as int]));
        }
        if number(s) is Some {
            assert(is_digit(body[body.len() - 1]));
            assert(body.last() == s.last());
        }
        if s[0] != '+' {
            assert((plus + s).skip(1) =~= s);
        }
    } else {
        assert(more =~= one);
        if !('0' <= c <= '9') {
            assert(longer.len() > 0 ==> !is_digit(longer[0]));
        }
    }
    if '0' <= c <= '9' {
        assert(unsigned_part(one) =~= one);
        assert(is_digit(one[0]));
        assert(digits_value(one.drop_last()) == 0);
    }
}

/// Text begins with what stands at its front, ends with what stands at its end, and
/// holds what stands anywhere in it. Nothing else does.
pub proof fn parts_are_found_where_they_stand(a: Seq<char>, p: Seq<char>, b: Seq<char>, s: Seq<char>)
    ensures
        begins(p + b, p),
        finishes(a + p, p),
        holds(a + p + b, p),
        between(p + a + b, p, b) == Some(a),
        begins(s, p) ==> exists|rest: Seq<char>| s == #[trigger] (p + rest),
        finishes(s, p) ==> exists|rest: Seq<char>| s == #[trigger] (rest + p),
        holds(s, p) ==> exists|x: Seq<char>, y: Seq<char>| s == #[trigger] (x + p + y),
        between(s, p, b) is Some ==> s == p + between(s, p, b)->0 + b,
{
    assert((p + b).take(p.len() as int) =~= p);
    assert((a + p).skip((a + p).len() - p.len()) =~= p);
    let whole = a + p + b;
    assert(whole.subrange(a.len() as int, a.len() as int + p.len()) =~= p);
    assert(stands_at(whole, p, a.len() as int));
    let framed = p + a + b;
    assert(framed.take(p.len() as int) =~= p);
    let rest = framed.skip(p.len() as int);
    assert(rest.skip(rest.len() - b.len()) =~= b);
    assert(framed.subrange(p.len() as int, framed.len() - b.len()) =~= a);
    if begins(s, p) {
        assert(s =~= p + s.skip(p.len() as int));
    }
    if finishes(s, p) {
        assert(s =~= s.take(s.len() - p.len()) + p);
    }
    if holds(s, p) {
        let at = choose|at: int| stands_at(s, p, at);
        assert(s =~= s.take(at) + p + s.skip(at + p.len()));
    }
    if between(s, p, b) is Some {
        let tail = s.skip(p.len() as int);
        assert(tail =~= tail.take(tail.len() - b.len()) + b);
        assert(s =~= p + s.subrange(p.len() as int, s.len() - b.len()) + b) by {
            assert(s =~= p + tail);
            assert(tail.take(tail.len() - b.len()) =~= s.subrange(
                p.len() as int,
                s.len() - b.len(),
            ));
        }
    }
}

/// In lowercase, each capital of ASCII text is the small letter 32 places on, and
/// every other character is as it was.
pub proof fn capitals_become_small(s: Seq<char>, i: int)
    requires
        all_ascii(s),
        0 <= i < s.len(),
    ensures
        lowercase(s).len() == s.len(),
        'A' <= s[i] <= 'Z' ==> lowercase(s)[i] as int == s[i] as int + 32,
        !('A' <= s[i] <= 'Z') ==> lowercase(s)[i] == s[i],
{
}

/// Blanks, tabs and ends of lines are white space; nothing that shows is.
pub proof fn what_shows_is_not_white(c: char)
    ensures
        c == ' ' || c == '\t' || c == '\n' || c == '\r' ==> is_white(c),
        0x21 <= c as int <= 0x7e ==> !is_white(c),
        (c as int) < 9 ==> !is_white(c),
        0xA1 <= c as int <= 0x167F ==> !is_white(c),
        (c as int) > 0x3000 ==> !is_white(c),
{
}

} // verus!
