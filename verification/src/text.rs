//! Text of commands and messages: splitting, trimming, numbers.
use vstd::prelude::*;
use vstd::string::*;

verus! {

/// Characters with the White_Space property of Unicode.
pub open spec fn is_space(c: char) -> bool {
    let n = c as u32;
    ||| 0x9 <= n <= 0xd
    ||| n == 0x20
    ||| n == 0x85
    ||| n == 0xa0
    ||| n == 0x1680
    ||| 0x2000 <= n <= 0x200a
    ||| n == 0x2028
    ||| n == 0x2029
    ||| n == 0x202f
    ||| n == 0x205f
    ||| n == 0x3000
}

/// `s` from its first character that is no white space on.
pub open spec fn trim_front(s: Seq<char>) -> Seq<char>
    decreases s.len(),
{
    if s.len() > 0 && is_space(s[0]) {
        trim_front(s.subrange(1, s.len() as int))
    } else {
        s
    }
}

/// `s` up to its last character that is no white space.
pub open spec fn trim_back(s: Seq<char>) -> Seq<char>
    decreases s.len(),
{
    if s.len() > 0 && is_space(s.last()) {
        trim_back(s.drop_last())
    } else {
        s
    }
}

/// `s` without white space at both ends.
pub open spec fn trim_both(s: Seq<char>) -> Seq<char> {
    trim_back(trim_front(s))
}

/// `s` without leading occurrences of `c`.
pub open spec fn drop_leading(s: Seq<char>, c: char) -> Seq<char>
    decreases s.len(),
{
    if s.len() > 0 && s[0] == c {
        drop_leading(s.subrange(1, s.len() as int), c)
    } else {
        s
    }
}

/// `s` without trailing occurrences of `c`.
pub open spec fn drop_trailing(s: Seq<char>, c: char) -> Seq<char>
    decreases s.len(),
{
    if s.len() > 0 && s.last() == c {
        drop_trailing(s.drop_last(), c)
    } else {
        s
    }
}

/// Two colons stand at position `i`.
pub open spec fn separator_at(s: Seq<char>, i: int) -> bool {
    0 <= i && i + 1 < s.len() && s[i] == ':' && s[i + 1] == ':'
}

/// The first position from `i` on at which two colons stand, or the length of `s`.
pub open spec fn separator_from(s: Seq<char>, i: int) -> int
    decreases s.len() - i,
{
    if i < 0 || i >= s.len() {
        s.len() as int
    } else if separator_at(s, i) {
        i
    } else {
        separator_from(s, i + 1)
    }
}

/// The parts of `s` between double colons, at most `n` of them; the last one
/// holds the rest.
pub open spec fn parts(s: Seq<char>, n: nat) -> Seq<Seq<char>>
    decreases n,
{
    let i = separator_from(s, 0);
    if n <= 1 || i >= s.len() {
        seq![s]
    } else {
        seq![s.subrange(0, i)] + parts(s.subrange(i + 2, s.len() as int), (n - 1) as nat)
    }
}

/// All parts of `s` between double colons.
pub open spec fn all_parts(s: Seq<char>) -> Seq<Seq<char>> {
    parts(s, (s.len() + 1) as nat)
}

/// The parts joined by double colons.
pub open spec fn joined(p: Seq<Seq<char>>) -> Seq<char>
    decreases p.len(),
{
    if p.len() == 0 {
        Seq::empty()
    } else if p.len() == 1 {
        p[0]
    } else {
        p[0] + "::"@ + joined(p.subrange(1, p.len() as int))
    }
}

/// The parts with `sep` between them.
pub open spec fn joined_with(p: Seq<Seq<char>>, sep: Seq<char>) -> Seq<char>
    decreases p.len(),
{
    if p.len() == 0 {
        Seq::empty()
    } else if p.len() == 1 {
        p[0]
    } else {
        joined_with(p.drop_last(), sep) + sep + p.last()
    }
}

/// The pieces of `s` between occurrences of `c`.
pub open spec fn pieces(s: Seq<char>, c: char) -> Seq<Seq<char>>
    decreases s.len(),
{
    if s.len() == 0 {
        seq![s]
    } else if s.last() == c {
        pieces(s.drop_last(), c).push(Seq::empty())
    } else {
        let p = pieces(s.drop_last(), c);
        if p.len() == 0 {
            p
        } else {
            p.update(p.len() - 1, p.last().push(s.last()))
        }
    }
}

/// The contents of a list of texts.
pub open spec fn texts(v: Seq<String>) -> Seq<Seq<char>> {
    v.map_values(|s: String| s@)
}

/// A decimal digit.
pub open spec fn is_digit(c: char) -> bool {
    '0' <= c <= '9'
}

/// Every character is a decimal digit.
pub open spec fn all_digits(s: Seq<char>) -> bool {
    forall|i: int| 0 <= i < s.len() ==> is_digit(#[trigger] s[i])
}

/// The number that decimal digits write.
pub open spec fn digits_value(s: Seq<char>) -> nat
    decreases s.len(),
{
    if s.len() == 0 {
        0
    } else {
        (digits_value(s.drop_last()) * 10 + (s.last() as u32 - '0' as u32)) as nat
    }
}

/// The digits behind an optional plus sign.
pub open spec fn unsigned_digits(s: Seq<char>) -> Seq<char> {
    if s.len() > 0 && s[0] == '+' {
        s.subrange(1, s.len() as int)
    } else {
        s
    }
}

/// The number up to `max` that `s` writes: an optional plus sign and one or more
/// decimal digits.
pub open spec fn number(s: Seq<char>, max: nat) -> Option<nat> {
    let d = unsigned_digits(s);
    if d.len() > 0 && all_digits(d) && digits_value(d) <= max {
        Some(digits_value(d))
    } else {
        None
    }
}

/// The node id that `s` writes.
pub open spec fn id_number(s: Seq<char>) -> Option<u8> {
    match number(s, 255) {
        Some(n) => Some(n as u8),
        None => None,
    }
}

/// The character that writes a digit.
pub open spec fn digit_char(d: nat) -> char {
    (('0' as u32) + d) as char
}

/// `n` in decimal, without leading zeros.
pub open spec fn decimal(n: nat) -> Seq<char>
    decreases n,
{
    if n < 10 {
        seq![digit_char(n)]
    } else {
        decimal(n / 10).push(digit_char(n % 10))
    }
}

/// `s` begins with `prefix`.
pub open spec fn begins_with(s: Seq<char>, prefix: Seq<char>) -> bool {
    prefix.len() <= s.len() && s.subrange(0, prefix.len() as int) == prefix
}

/// What follows the first `n` characters of `s`.
pub open spec fn after(s: Seq<char>, n: int) -> Seq<char> {
    s.subrange(n, s.len() as int)
}

/// Whether two texts are equal.
pub fn same_text(a: &str, b: &str) -> (r: bool)
    ensures
        r == (a@ == b@),
{
    a.to_owned() == b.to_owned()
}

/// The characters of a text.
pub fn chars_of(s: &str) -> (r: Vec<char>)
    ensures
        r@ == s@,
{
    let mut r: Vec<char> = Vec::new();
    let n: usize = s.unicode_len();
    for c in it: s.chars()
        invariant
            r@ == s@.subrange(0, it.index()),
            it.seq() == s@,
    {
        r.push(c);
        assert(r@ =~= s@.subrange(0, it.index() + 1));
    }
    assert(r@ =~= s@);
    r
}

/// A part of a text.
pub fn slice_text(s: &str, from: usize, to: usize) -> (r: String)
    requires
        from <= to <= s@.len(),
    ensures
        r@ == s@.subrange(from as int, to as int),
{
    s.substring_char(from, to).to_owned()
}

/// Two texts, one behind the other.
pub fn join2(a: &str, b: &str) -> (r: String)
    ensures
        r@ == a@ + b@,
{
    let mut r: String = a.to_owned();
    r.append(b);
    r
}

/// Three texts, one behind the other.
pub fn join3(a: &str, b: &str, c: &str) -> (r: String)
    ensures
        r@ == a@ + b@ + c@,
{
    let mut r: String = join2(a, b);
    r.append(c);
    r
}

/// Whether a character is white space.
pub fn space(c: char) -> (r: bool)
    ensures
        r == is_space(c),
{
    let n: u32 = c as u32;
    (0x9 <= n && n <= 0xd) || n == 0x20 || n == 0x85 || n == 0xa0 || n == 0x1680 || (0x2000 <= n && n
        <= 0x200a) || n == 0x2028 || n == 0x2029 || n == 0x202f || n == 0x205f || n == 0x3000
}

proof fn lemma_trim_front_at(s: Seq<char>, i: int)
    requires
        0 <= i <= s.len(),
        forall|j: int| 0 <= j < i ==> is_space(#[trigger] s[j]),
        i < s.len() ==> !is_space(s[i]),
    ensures
        trim_front(s) == after(s, i),
    decreases i,
{
    if i > 0 {
        let t = s.subrange(1, s.len() as int);
        assert forall|j: int| 0 <= j < i - 1 implies is_space(#[trigger] t[j]) by {
            assert(t[j] == s[j + 1]);
        }
        lemma_trim_front_at(t, i - 1);
        assert(after(t, i - 1) =~= after(s, i));
    } else {
        assert(after(s, 0) =~= s);
    }
}

proof fn lemma_trim_back_at(s: Seq<char>, i: int)
    requires
        0 <= i <= s.len(),
        forall|j: int| i <= j < s.len() ==> is_space(#[trigger] s[j]),
        i > 0 ==> !is_space(s[i - 1]),
    ensures
        trim_back(s) == s.subrange(0, i),
    decreases s.len() - i,
{
    if i < s.len() {
        assert(is_space(s[s.len() - 1]));
        let t = s.drop_last();
        assert forall|j: int| i <= j < t.len() implies is_space(#[trigger] t[j]) by {
            assert(t[j] == s[j]);
        }
        lemma_trim_back_at(t, i);
        assert(t.subrange(0, i) =~= s.subrange(0, i));
    } else {
        assert(s.subrange(0, i) =~= s);
    }
}

/// `s` without white space at its end.
pub fn trim_end(s: &str) -> (r: String)
    ensures
        r@ == trim_back(s@),
{
    let c: Vec<char> = chars_of(s);
    let mut to: usize = c.len();
    while to > 0 && space(c[to - 1])
        invariant
            c@ == s@,
            to <= c@.len(),
            forall|j: int| to <= j < c@.len() ==> is_space(#[trigger] c@[j]),
        decreases to,
    {
        to = to - 1;
    }
    proof {
        lemma_trim_back_at(s@, to as int);
    }
    slice_text(s, 0, to)
}

/// `s` without white space at both ends.
pub fn trim(s: &str) -> (r: String)
    ensures
        r@ == trim_both(s@),
{
    let c: Vec<char> = chars_of(s);
    let mut from: usize = 0;
    while from < c.len() && space(c[from])
        invariant
            c@ == s@,
            from <= c@.len(),
            forall|j: int| 0 <= j < from ==> is_space(#[trigger] c@[j]),
        decreases c@.len() - from,
    {
        from = from + 1;
    }
    proof {
        lemma_trim_front_at(s@, from as int);
    }
    let rest: String = slice_text(s, from, c.len());
    trim_end(rest.as_str())
}

/// `s` without leading occurrences of `c`.
pub fn trim_leading(s: &str, c: char) -> (r: String)
    ensures
        r@ == drop_leading(s@, c),
{
    let v: Vec<char> = chars_of(s);
    let mut from: usize = 0;
    assert(after(s@, 0) =~= s@);
    while from < v.len() && v[from] == c
        invariant
            v@ == s@,
            from <= v@.len(),
            drop_leading(s@, c) == drop_leading(after(s@, from as int), c),
        decreases v@.len() - from,
    {
        proof {
            let t = after(s@, from as int);
            assert(t[0] == c);
            assert(t.subrange(1, t.len() as int) =~= after(s@, from + 1));
        }
        from = from + 1;
    }
    proof {
        let t = after(s@, from as int);
        if t.len() > 0 {
            assert(t[0] == s@[from as int]);
        }
    }
    slice_text(s, from, v.len())
}

/// `s` without trailing occurrences of `c`.
pub fn trim_trailing(s: &str, c: char) -> (r: String)
    ensures
        r@ == drop_trailing(s@, c),
{
    let v: Vec<char> = chars_of(s);
    let mut to: usize = v.len();
    assert(s@.subrange(0, s@.len() as int) =~= s@);
    while to > 0 && v[to - 1] == c
        invariant
            v@ == s@,
            to <= v@.len(),
            drop_trailing(s@, c) == drop_trailing(s@.subrange(0, to as int), c),
        decreases to,
    {
        proof {
            let t = s@.subrange(0, to as int);
            assert(t.last() == c);
            assert(t.drop_last() =~= s@.subrange(0, to - 1));
        }
        to = to - 1;
    }
    slice_text(s, 0, to)
}

/// Whether `s` begins with `prefix`.
pub fn starts_with(s: &str, prefix: &str) -> (r: bool)
    ensures
        r == begins_with(s@, prefix@),
{
    let n: usize = prefix.unicode_len();
    if n > s.unicode_len() {
        return false;
    }
    same_text(s.substring_char(0, n), prefix)
}

/// What follows `prefix` in `s`, where `s` begins with it.
pub fn strip_prefix(s: &str, prefix: &str) -> (r: Option<String>)
    ensures
        match r {
            Some(rest) => begins_with(s@, prefix@) && rest@ == after(s@, prefix@.len() as int),
            None => !begins_with(s@, prefix@),
        },
{
    if starts_with(s, prefix) {
        let n: usize = prefix.unicode_len();
        Some(slice_text(s, n, s.unicode_len()))
    } else {
        None
    }
}

/// Where the first separator stands.
pub proof fn lemma_separator_from(s: Seq<char>, i: int)
    requires
        0 <= i,
    ensures
        ({
            let j = separator_from(s, i);
            &&& j <= s.len()
            &&& i <= s.len() ==> i <= j
            &&& j < s.len() ==> separator_at(s, j)
        }),
    decreases s.len() - i,
{
    if i < s.len() && !separator_at(s, i) {
        lemma_separator_from(s, i + 1);
    }
}

proof fn lemma_separator_shift(s: Seq<char>, k: int, i: int)
    requires
        0 <= k <= s.len(),
        0 <= i,
    ensures
        separator_from(after(s, k), i) == separator_from(s, k + i) - k,
    decreases s.len() - k - i,
{
    let t = after(s, k);
    if i < t.len() {
        if i + 1 < t.len() {
            assert(t[i] == s[k + i] && t[i + 1] == s[k + i + 1]);
        }
        assert(separator_at(t, i) == separator_at(s, k + i));
        if !separator_at(t, i) {
            lemma_separator_shift(s, k, i + 1);
        }
    }
}

/// The first position from `i` on at which two colons stand.
fn find_separator(c: &Vec<char>, i: usize) -> (r: usize)
    requires
        i <= c@.len(),
    ensures
        r == separator_from(c@, i as int),
{
    let mut j: usize = i;
    while j < c.len()
        invariant
            i <= j <= c@.len(),
            separator_from(c@, i as int) == separator_from(c@, j as int),
        decreases c@.len() - j,
    {
        if c[j] == ':' && j + 1 < c.len() && c[j + 1] == ':' {
            return j;
        }
        j = j + 1;
    }
    j
}

/// The parts of `s` between double colons, at most `n` of them.
pub fn split_parts(s: &str, n: usize) -> (r: Vec<String>)
    requires
        n >= 1,
    ensures
        texts(r@) == parts(s@, n as nat),
{
    let c: Vec<char> = chars_of(s);
    let mut r: Vec<String> = Vec::new();
    let mut from: usize = 0;
    let mut left: usize = n;
    proof {
        assert(after(s@, 0) =~= s@);
        assert(texts(r@) + parts(s@, n as nat) =~= parts(s@, n as nat));
    }
    loop
        invariant
            c@ == s@,
            from <= c@.len(),
            1 <= left,
            parts(s@, n as nat) == texts(r@) + parts(after(s@, from as int), left as nat),
        decreases left,
    {
        let i: usize = find_separator(&c, from);
        proof {
            lemma_separator_from(s@, from as int);
            lemma_separator_shift(s@, from as int, 0);
        }
        let ghost t = after(s@, from as int);
        if left == 1 || i >= c.len() {
            let last: String = slice_text(s, from, c.len());
            r.push(last);
            proof {
                assert(parts(t, left as nat) == seq![t]);
                assert(texts(r@) =~= parts(s@, n as nat));
            }
            return r;
        }
        let ghost before = r@;
        let part: String = slice_text(s, from, i);
        r.push(part);
        proof {
            assert(t.subrange(0, i - from) =~= s@.subrange(from as int, i as int));
            assert(t.subrange(i - from + 2, t.len() as int) =~= after(s@, i + 2));
            assert(texts(r@) =~= texts(before).push(part@));
            assert(texts(r@) + parts(after(s@, i + 2), (left - 1) as nat) =~= texts(before) + parts(
                t,
                left as nat,
            ));
        }
        from = i + 2;
        left = left - 1;
    }
}

/// Asking for more parts than there can be gives them all.
pub proof fn lemma_parts_enough(s: Seq<char>, n: nat, m: nat)
    requires
        s.len() < n,
        s.len() < m,
    ensures
        parts(s, n) == parts(s, m),
    decreases s.len(),
{
    let i = separator_from(s, 0);
    lemma_separator_from(s, 0);
    if i < s.len() {
        lemma_parts_enough(s.subrange(i + 2, s.len() as int), (n - 1) as nat, (m - 1) as nat);
    }
}

/// All parts of `s` between double colons.
pub fn split_all(s: &str) -> (r: Vec<String>)
    ensures
        texts(r@) == all_parts(s@),
{
    let n: usize = s.unicode_len();
    if n == usize::MAX {
        let r: Vec<String> = split_parts(s, n);
        proof {
            lemma_parts_long(s@, n as nat);
        }
        return r;
    }
    split_parts(s, n + 1)
}

/// A text of `n` characters has fewer than `n` parts.
proof fn lemma_parts_long(s: Seq<char>, n: nat)
    requires
        s.len() == n,
        n >= 2,
    ensures
        parts(s, n) == parts(s, n + 1),
{
    let i = separator_from(s, 0);
    lemma_separator_from(s, 0);
    if i < s.len() {
        lemma_parts_enough(s.subrange(i + 2, s.len() as int), (n - 1) as nat, n);
    }
}

/// The texts from position `from` on, joined by double colons.
pub fn join_from(v: &Vec<String>, from: usize) -> (r: String)
    requires
        from <= v@.len(),
    ensures
        r@ == joined(texts(v@).subrange(from as int, v@.len() as int)),
{
    let mut i: usize = v.len();
    let mut r: String = String::new();
    let ghost all = texts(v@);
    while i > from
        invariant
            from <= i <= v@.len(),
            all == texts(v@),
            r@ == joined(all.subrange(i as int, v@.len() as int)),
        decreases i,
    {
        proof {
            let t = all.subrange(i - 1, v@.len() as int);
            assert(t.subrange(1, t.len() as int) =~= all.subrange(i as int, v@.len() as int));
            assert(t[0] == v@[i - 1]@);
        }
        let first: bool = i == v.len();
        i = i - 1;
        if first {
            r = v[i].clone();
        } else {
            r = join3(v[i].as_str(), "::", r.as_str());
        }
    }
    r
}

/// The texts with `sep` between them.
pub fn join_with(v: &Vec<String>, sep: &str) -> (r: String)
    ensures
        r@ == joined_with(texts(v@), sep@),
{
    let mut i: usize = 0;
    let mut r: String = String::new();
    let ghost all = texts(v@);
    assert(all.subrange(0, 0) =~= Seq::<Seq<char>>::empty());
    while i < v.len()
        invariant
            i <= v@.len(),
            all == texts(v@),
            r@ == joined_with(all.subrange(0, i as int), sep@),
        decreases v@.len() - i,
    {
        proof {
            let t = all.subrange(0, i + 1);
            assert(t.drop_last() =~= all.subrange(0, i as int));
            assert(t.last() == v@[i as int]@);
        }
        if i == 0 {
            r = v[i].clone();
        } else {
            r.append(sep);
            r.append(v[i].as_str());
        }
        i = i + 1;
    }
    assert(all.subrange(0, i as int) =~= all);
    r
}

/// A copy of a list of texts.
pub fn copy_texts(v: &Vec<String>) -> (r: Vec<String>)
    ensures
        texts(r@) == texts(v@),
{
    let mut r: Vec<String> = Vec::new();
    let mut i: usize = 0;
    while i < v.len()
        invariant
            i <= v@.len(),
            r@.len() == i,
            forall|j: int| 0 <= j < i ==> (#[trigger] r@[j])@ == v@[j]@,
        decreases v@.len() - i,
    {
        r.push(v[i].clone());
        i = i + 1;
    }
    assert(texts(r@) =~= texts(v@));
    r
}

/// The pieces of `s` between occurrences of `c`.
pub fn split_at_char(s: &str, c: char) -> (r: Vec<String>)
    ensures
        texts(r@) == pieces(s@, c),
{
    let v: Vec<char> = chars_of(s);
    let mut r: Vec<String> = Vec::new();
    let mut from: usize = 0;
    let mut i: usize = 0;
    assert(s@.subrange(0, 0) =~= Seq::<char>::empty());
    while i < v.len()
        invariant
            v@ == s@,
            from <= i <= v@.len(),
            pieces(s@.subrange(0, i as int), c) == texts(r@).push(
                s@.subrange(from as int, i as int),
            ),
        decreases v@.len() - i,
    {
        let ghost before = texts(r@);
        proof {
            let t = s@.subrange(0, i + 1);
            assert(t.drop_last() =~= s@.subrange(0, i as int));
            assert(t.last() == s@[i as int]);
            assert(s@.subrange(from as int, i as int).push(s@[i as int]) =~= s@.subrange(
                from as int,
                i + 1,
            ));
        }
        if v[i] == c {
            let piece: String = slice_text(s, from, i);
            r.push(piece);
            from = i + 1;
            proof {
                assert(texts(r@) =~= before.push(piece@));
                assert(s@.subrange(from as int, i + 1) =~= Seq::<char>::empty());
            }
        } else {
            assert(before.push(s@.subrange(from as int, i as int)).update(
                before.len() as int,
                s@.subrange(from as int, i + 1),
            ) =~= before.push(s@.subrange(from as int, i + 1)));
        }
        i = i + 1;
    }
    let ghost before = texts(r@);
    let piece: String = slice_text(s, from, v.len());
    r.push(piece);
    proof {
        assert(s@.subrange(0, v@.len() as int) =~= s@);
        assert(texts(r@) =~= before.push(piece@));
    }
    r
}

/// The number up to `max` that `s` writes.
pub fn parse_number(s: &str, max: u64) -> (r: Option<u64>)
    ensures
        match r {
            Some(n) => number(s@, max as nat) == Some(n as nat),
            None => number(s@, max as nat) is None,
        },
{
    let c: Vec<char> = chars_of(s);
    let mut i: usize = 0;
    if c.len() > 0 && c[0] == '+' {
        i = 1;
    }
    let start: usize = i;
    let ghost d = unsigned_digits(s@);
    proof {
        assert(d =~= s@.subrange(start as int, s@.len() as int));
    }
    if i >= c.len() {
        return None;
    }
    let mut n: u64 = 0;
    let mut over: bool = false;
    assert(d.subrange(0, 0) =~= Seq::<char>::empty());
    while i < c.len()
        invariant
            c@ == s@,
            start <= i <= c@.len(),
            start <= 1,
            d == s@.subrange(start as int, s@.len() as int),
            d == unsigned_digits(s@),
            forall|j: int| 0 <= j < i - start ==> is_digit(#[trigger] d[j]),
            !over ==> n == digits_value(d.subrange(0, i - start)) && n <= max,
            over ==> digits_value(d.subrange(0, i - start)) > max,
        decreases c@.len() - i,
    {
        let ch: char = c[i];
        proof {
            assert(d[i - start] == ch);
            let t = d.subrange(0, i + 1 - start);
            assert(t.drop_last() =~= d.subrange(0, i - start));
            assert(t.last() == ch);
        }
        if !('0' <= ch && ch <= '9') {
            return None;
        }
        let v: u64 = (ch as u32 - '0' as u32) as u64;
        if !over {
            if n > (u64::MAX - v) / 10 || n * 10 + v > max {
                over = true;
            } else {
                n = n * 10 + v;
            }
        }
        i = i + 1;
    }
    assert(d.subrange(0, d.len() as int) =~= d);
    if over {
        None
    } else {
        Some(n)
    }
}

/// The node id that `s` writes.
pub fn parse_id(s: &str) -> (r: Option<u8>)
    ensures
        r == id_number(s@),
{
    match parse_number(s, 255) {
        Some(n) => Some(n as u8),
        None => None,
    }
}

/// Why a text writes no node id.
#[derive(Clone, Copy, PartialEq, Eq, Structural, Debug)]
pub enum IdFault {
    /// There is nothing to read.
    Empty,
    /// There is something that is not a digit.
    InvalidDigit,
    /// The number is too large.
    TooLarge,
}

/// Why a text writes no node id, where it writes none.
pub uninterp spec fn id_fault(s: Seq<char>) -> Option<IdFault>;

/// `str::parse` into a `u8`, as far as it tells why it fails. An empty text is empty, and
/// digits that write a number above 255 are too large. Which fault counts where a text has
/// both too many digits and something else in it is left unsaid.
#[verifier::external_body]
fn parse_fault(s: &str) -> (r: Option<IdFault>)
    ensures
        r == id_fault(s@),
        (r is None) == (id_number(s@) is Some),
        s@.len() == 0 ==> r == Some(IdFault::Empty),
        s@.len() > 0 ==> r != Some(IdFault::Empty),
        unsigned_digits(s@).len() > 0 && all_digits(unsigned_digits(s@)) && digits_value(
            unsigned_digits(s@),
        ) > 255 ==> r == Some(IdFault::TooLarge),
{
    match s.parse::<u8>() {
        Ok(_) => None,
        Err(e) => match e.kind() {
            std::num::IntErrorKind::Empty => Some(IdFault::Empty),
            std::num::IntErrorKind::PosOverflow => Some(IdFault::TooLarge),
            _ => Some(IdFault::InvalidDigit),
        },
    }
}

/// The node id that `s` writes, or why it writes none.
pub fn read_id(s: &str) -> (r: Result<u8, IdFault>)
    ensures
        match id_number(s@) {
            Some(id) => r == Ok::<u8, IdFault>(id),
            None => r is Err && id_fault(s@) == Some(r->Err_0),
        },
        s@.len() == 0 ==> r == Err::<u8, IdFault>(IdFault::Empty),
{
    match parse_fault(s) {
        Some(fault) => Err(fault),
        None => {
            match parse_id(s) {
                Some(id) => Ok(id),
                None => Err(IdFault::InvalidDigit),
            }
        },
    }
}

/// The digit `d` as a text.
fn digit_text(d: u64) -> (r: String)
    requires
        d < 10,
    ensures
        r@ == seq![digit_char(d as nat)],
{
    proof {
        reveal_strlit("0");
        reveal_strlit("1");
        reveal_strlit("2");
        reveal_strlit("3");
        reveal_strlit("4");
        reveal_strlit("5");
        reveal_strlit("6");
        reveal_strlit("7");
        reveal_strlit("8");
        reveal_strlit("9");
    }
    let t: &str = if d == 0 {
        "0"
    } else if d == 1 {
        "1"
    } else if d == 2 {
        "2"
    } else if d == 3 {
        "3"
    } else if d == 4 {
        "4"
    } else if d == 5 {
        "5"
    } else if d == 6 {
        "6"
    } else if d == 7 {
        "7"
    } else if d == 8 {
        "8"
    } else {
        "9"
    };
    assert(t@ =~= seq![digit_char(d as nat)]);
    t.to_owned()
}

/// `n` in decimal.
pub fn decimal_text(n: u64) -> (r: String)
    ensures
        r@ == decimal(n as nat),
    decreases n,
{
    if n < 10 {
        digit_text(n)
    } else {
        let mut r: String = decimal_text(n / 10);
        let d: String = digit_text(n % 10);
        r.append(d.as_str());
        assert(r@ =~= decimal(n as nat));
        r
    }
}

/// A node id in decimal.
pub fn id_text(id: u8) -> (r: String)
    ensures
        r@ == decimal(id as nat),
{
    decimal_text(id as u64)
}

/// Reading a number back that was written in decimal.
pub proof fn law_decimal_reads_back(n: nat, max: nat)
    requires
        n <= max,
    ensures
        number(decimal(n), max) == Some(n),
{
    lemma_decimal_digits(n);
    assert(unsigned_digits(decimal(n)) == decimal(n));
}

/// A number in decimal is made of digits that write it.
pub proof fn lemma_decimal_digits(n: nat)
    ensures
        decimal(n).len() > 0,
        all_digits(decimal(n)),
        digits_value(decimal(n)) == n,
    decreases n,
{
    if n < 10 {
        let s = decimal(n);
        assert(s.drop_last() =~= Seq::<char>::empty());
        assert(s.last() == digit_char(n));
        assert(digits_value(Seq::<char>::empty()) == 0);
        assert(digits_value(s) == digits_value(s.drop_last()) * 10 + n);
    } else {
        lemma_decimal_digits(n / 10);
        let s = decimal(n);
        assert(s.drop_last() =~= decimal(n / 10));
        assert(s.last() == digit_char(n % 10));
        assert(digits_value(s) == digits_value(s.drop_last()) * 10 + n % 10);
        assert forall|i: int| 0 <= i < s.len() implies is_digit(#[trigger] s[i]) by {
            if i < s.len() - 1 {
                assert(s[i] == decimal(n / 10)[i]);
            }
        }
    }
}

}
