//! Texts that are put together are read as they were meant.
use crate::notices::ids_in;
use crate::packet::NodeId;
use crate::server_requests::ids_text;
use crate::text::{
    all_digits, decimal, drop_leading, drop_trailing, id_number, is_digit, is_space, joined,
    joined_with, law_decimal_reads_back, lemma_decimal_digits, lemma_separator_from, parts, pieces,
    separator_at, separator_from, trim_back, trim_both, trim_front,
};
use vstd::prelude::*;

verus! {

/// A text in which every colon is followed by something else.
pub open spec fn plain(s: Seq<char>) -> bool {
    forall|i: int|
        0 <= i < s.len() && #[trigger] s[i] == ':' ==> i + 1 < s.len() && s[i + 1] != ':'
}

/// A text without two colons side by side.
pub open spec fn seamless(s: Seq<char>) -> bool {
    forall|i: int| 0 <= i < s.len() ==> !(#[trigger] separator_at(s, i))
}

/// A text that is not empty, with no white space at its ends.
pub open spec fn trimmed(s: Seq<char>) -> bool {
    s.len() > 0 && !is_space(s[0]) && !is_space(s.last())
}

/// `a` and `b` with double colons between them.
pub open spec fn coupled(a: Seq<char>, b: Seq<char>) -> Seq<char> {
    a + "::"@ + b
}

/// The double colons.
pub proof fn lemma_colons()
    ensures
        "::"@.len() == 2,
        "::"@[0] == ':',
        "::"@[1] == ':',
{
    reveal_strlit("::");
}

proof fn lemma_first_separator(a: Seq<char>, b: Seq<char>, i: int)
    requires
        plain(a),
        0 <= i <= a.len(),
    ensures
        separator_from(coupled(a, b), i) == a.len(),
    decreases a.len() - i,
{
    lemma_colons();
    let s = coupled(a, b);
    if i == a.len() {
        assert(s[i] == ':' && s[i + 1] == ':');
        assert(separator_at(s, i));
    } else {
        assert(s[i] == a[i]);
        if i + 1 < a.len() {
            assert(s[i + 1] == a[i + 1]);
        }
        assert(!separator_at(s, i));
        lemma_first_separator(a, b, i + 1);
    }
}

proof fn lemma_no_separator(s: Seq<char>, i: int)
    requires
        seamless(s),
        0 <= i <= s.len(),
    ensures
        separator_from(s, i) == s.len(),
    decreases s.len() - i,
{
    if i < s.len() {
        assert(!separator_at(s, i));
        lemma_no_separator(s, i + 1);
    }
}

/// The first part of two coupled texts is the first text, and the rest is split on.
pub proof fn lemma_coupled_parts(a: Seq<char>, b: Seq<char>, n: nat)
    requires
        plain(a),
        n >= 2,
    ensures
        parts(coupled(a, b), n) == seq![a] + parts(b, (n - 1) as nat),
{
    lemma_colons();
    let s = coupled(a, b);
    lemma_first_separator(a, b, 0);
    assert(s.subrange(0, a.len() as int) =~= a);
    assert(s.subrange(a.len() as int + 2, s.len() as int) =~= b);
}

/// A text without double colons is one part.
pub proof fn lemma_single_part(s: Seq<char>, n: nat)
    requires
        seamless(s) || n == 1,
    ensures
        parts(s, n) == seq![s],
{
    if seamless(s) {
        lemma_no_separator(s, 0);
    }
}

/// Two texts that are coupled are read as two parts, and three as three: splitting
/// undoes coupling.
pub proof fn law_coupled_texts_come_apart(a: Seq<char>, b: Seq<char>, c: Seq<char>)
    requires
        plain(a),
        plain(b),
    ensures
        parts(coupled(a, coupled(b, c)), 3) == seq![a, b, c],
        seamless(b) ==> parts(coupled(a, b), 3) == seq![a, b],
        parts(coupled(a, c), 2) == seq![a, c],
{
    lemma_coupled_parts(a, coupled(b, c), 3);
    lemma_coupled_parts(b, c, 2);
    lemma_single_part(c, 1);
    assert(seq![a] + (seq![b] + seq![c]) =~= seq![a, b, c]);
    if seamless(b) {
        lemma_coupled_parts(a, b, 3);
        lemma_single_part(b, 2);
        assert(seq![a] + seq![b] =~= seq![a, b]);
    }
    lemma_coupled_parts(a, c, 2);
    assert(seq![a] + seq![c] =~= seq![a, c]);
}

/// Joining the parts of a text gives the text back.
pub proof fn law_parts_join_back(s: Seq<char>, n: nat)
    ensures
        joined(parts(s, n)) == s,
    decreases n,
{
    lemma_colons();
    let i = separator_from(s, 0);
    lemma_separator_from(s, 0);
    if n <= 1 || i >= s.len() {
        assert(parts(s, n) =~= seq![s]);
    } else {
        let head = s.subrange(0, i);
        let rest = s.subrange(i + 2, s.len() as int);
        let p = parts(rest, (n - 1) as nat);
        law_parts_join_back(rest, (n - 1) as nat);
        lemma_some_parts(rest, (n - 1) as nat);
        let all = seq![head] + p;
        assert(all.subrange(1, all.len() as int) =~= p);
        assert(all[0] == head);
        assert(joined(all) == head + "::"@ + joined(p));
        assert(head + "::"@ + rest =~= s) by {
            assert(separator_at(s, i));
            assert("::"@ =~= s.subrange(i, i + 2));
        }
    }
}

proof fn lemma_some_parts(s: Seq<char>, n: nat)
    ensures
        parts(s, n).len() >= 1,
{
}

/// A text that is trimmed stays as it is.
pub proof fn lemma_trimmed(s: Seq<char>)
    requires
        trimmed(s),
    ensures
        trim_both(s) == s,
{
    assert(trim_front(s) == s);
    assert(trim_back(s) == s);
}

/// Digits are no colons, no white space and no brackets.
pub proof fn lemma_digits_plain(s: Seq<char>)
    requires
        all_digits(s),
    ensures
        plain(s),
        seamless(s),
        s.len() > 0 ==> trimmed(s),
{
    assert forall|i: int| 0 <= i < s.len() && #[trigger] s[i] == ':' implies i + 1 < s.len() && s[i
        + 1] != ':' by {
        assert(is_digit(s[i]));
    }
    assert forall|i: int| 0 <= i < s.len() implies !(#[trigger] separator_at(s, i)) by {
        assert(is_digit(s[i]));
    }
    if s.len() > 0 {
        assert(is_digit(s[0]));
        assert(is_digit(s[s.len() - 1]));
    }
}

/// A node id in decimal reads back.
pub proof fn lemma_id_reads_back(id: NodeId)
    ensures
        id_number(decimal(id as nat)) == Some(id),
        plain(decimal(id as nat)),
        seamless(decimal(id as nat)),
        trimmed(decimal(id as nat)),
        all_digits(decimal(id as nat)),
{
    law_decimal_reads_back(id as nat, 255);
    lemma_decimal_digits(id as nat);
    lemma_digits_plain(decimal(id as nat));
}

/// A part that holds no separator character ends up as the last piece.
proof fn lemma_last_piece(s: Seq<char>, c: char, d: Seq<char>)
    requires
        forall|i: int| 0 <= i < d.len() ==> #[trigger] d[i] != c,
    ensures
        pieces(s.push(c) + d, c) == pieces(s, c).push(d),
    decreases d.len(),
{
    let all = s.push(c) + d;
    if d.len() == 0 {
        assert(all =~= s.push(c));
        assert(all.drop_last() =~= s);
        assert(d =~= Seq::<char>::empty());
    } else {
        let e = d.drop_last();
        assert forall|i: int| 0 <= i < e.len() implies #[trigger] e[i] != c by {
            assert(d[i] == e[i]);
        }
        lemma_last_piece(s, c, e);
        assert(all.drop_last() =~= s.push(c) + e);
        assert(all.last() == d.last());
        assert(d[d.len() - 1] != c);
        let p = pieces(s, c).push(e);
        assert(pieces(all.drop_last(), c) == p);
        assert(p.last() == e);
        assert(p.drop_last() =~= pieces(s, c));
        assert(e.push(d.last()) =~= d);
        assert(pieces(all, c) =~= pieces(s, c).push(d));
    }
}

/// A text that does not hold a character is one piece.
proof fn lemma_one_piece(d: Seq<char>, c: char)
    requires
        forall|i: int| 0 <= i < d.len() ==> #[trigger] d[i] != c,
    ensures
        pieces(d, c) == seq![d],
    decreases d.len(),
{
    if d.len() > 0 {
        let e = d.drop_last();
        assert forall|i: int| 0 <= i < e.len() implies #[trigger] e[i] != c by {
            assert(d[i] == e[i]);
        }
        lemma_one_piece(e, c);
        assert(d[d.len() - 1] != c);
        assert(e.push(d.last()) =~= d);
        assert(pieces(d, c) =~= seq![d]);
    }
}

proof fn lemma_spaced_trims(d: Seq<char>)
    requires
        trimmed(d),
    ensures
        trim_both(" "@ + d) == d,
{
    reveal_strlit(" ");
    let s = " "@ + d;
    assert(s[0] == ' ');
    assert(is_space(' '));
    assert(s.subrange(1, s.len() as int) =~= d);
    assert(trim_front(s) == trim_front(d));
    lemma_trimmed(d);
}

pub proof fn lemma_ids_read_back(ids: Seq<NodeId>)
    ensures
        ({
            let p = ids.map_values(|id: NodeId| decimal(id as nat));
            let j = joined_with(p, ", "@);
            &&& ids_in(pieces(j, ',')) == ids
            &&& ids.len() > 0 ==> j.len() > 0 && is_digit(j[0]) && is_digit(j.last())
            &&& ids.len() == 0 ==> j.len() == 0
        }),
    decreases ids.len(),
{
    let f = |id: NodeId| decimal(id as nat);
    let p = ids.map_values(f);
    let j = joined_with(p, ", "@);
    reveal_strlit(", ");
    reveal_strlit(" ");
    if ids.len() == 0 {
        assert(pieces(j, ',') == seq![j]);
        assert(seq![j].last() == j);
        assert(seq![j].drop_last() =~= Seq::<Seq<char>>::empty());
        assert(trim_both(j) == j);
        assert(id_number(j) is None);
        assert(ids_in(Seq::<Seq<char>>::empty()) =~= Seq::<NodeId>::empty());
        assert(ids_in(seq![j]) =~= ids);
    } else {
        let last = ids.last();
        let d = decimal(last as nat);
        lemma_id_reads_back(last);
        assert forall|i: int| 0 <= i < d.len() implies #[trigger] d[i] != ',' by {
            assert(is_digit(d[i]));
        }
        assert(is_digit(d[0]) && is_digit(d[d.len() - 1]));
        assert(p.last() == d);
        if ids.len() == 1 {
            assert(j == d);
            lemma_one_piece(d, ',');
            lemma_trimmed(d);
            assert(seq![d].last() == d);
            assert(seq![d].drop_last() =~= Seq::<Seq<char>>::empty());
            assert(ids_in(Seq::<Seq<char>>::empty()) == Seq::<NodeId>::empty());
            assert(ids_in(seq![d]) =~= ids);
        } else {
            let before = ids.drop_last();
            lemma_ids_read_back(before);
            assert(before.map_values(f) =~= p.drop_last());
            let k = joined_with(p.drop_last(), ", "@);
            assert(j == k + ", "@ + d);
            let e = " "@ + d;
            assert forall|i: int| 0 <= i < e.len() implies #[trigger] e[i] != ',' by {
                if i > 0 {
                    assert(e[i] == d[i - 1]);
                }
            }
            assert(k + ", "@ + d =~= k.push(',') + e);
            lemma_last_piece(k, ',', e);
            lemma_spaced_trims(d);
            let q = pieces(k, ',').push(e);
            assert(q.last() == e);
            assert(q.drop_last() =~= pieces(k, ','));
            assert(ids_in(q) == before.push(last));
            assert(before.push(last) =~= ids);
            assert(j.last() == d.last());
            assert(j[0] == k[0]);
        }
    }
}

/// A list of ids that was written as text is read back.
pub proof fn law_id_lists_read_back(ids: Seq<NodeId>)
    ensures
        ids_in(pieces(drop_trailing(drop_leading(ids_text(ids), '['), ']'), ',')) == ids,
{
    let p = ids.map_values(|id: NodeId| decimal(id as nat));
    let j = joined_with(p, ", "@);
    lemma_ids_read_back(ids);
    reveal_strlit("[");
    reveal_strlit("]");
    let s = ids_text(ids);
    let t = j + "]"@;
    assert(s.subrange(1, s.len() as int) =~= t);
    assert(s[0] == '[');
    assert(drop_leading(s, '[') == drop_leading(t, '['));
    assert(t[0] != '[') by {
        if j.len() > 0 {
            assert(t[0] == j[0]);
            assert(is_digit(j[0]));
        }
    }
    assert(drop_leading(t, '[') == t);
    assert(t.last() == ']');
    assert(t.drop_last() =~= j);
    assert(drop_trailing(t, ']') == drop_trailing(j, ']'));
    assert(drop_trailing(j, ']') == j) by {
        if j.len() > 0 {
            assert(is_digit(j.last()));
        }
    }
}

}
