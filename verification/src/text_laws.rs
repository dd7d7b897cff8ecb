//! How texts are trimmed and taken apart.
use crate::text::{
    drop_leading, drop_trailing, is_space, joined_with, parts, pieces, separator_at, separator_from,
    trim_back, trim_both, trim_front,
};
use crate::wording::{lemma_trimmed, seamless};
use vstd::prelude::*;

verus! {

/// The characters from `i` up to `j` are all that is left of `s`: nothing but white space
/// stands around them, and none at either end of them.
pub open spec fn core_of(s: Seq<char>, i: int, j: int) -> bool {
    &&& 0 <= i <= j <= s.len()
    &&& forall|k: int| 0 <= k < i ==> is_space(#[trigger] s[k])
    &&& forall|k: int| j <= k < s.len() ==> is_space(#[trigger] s[k])
    &&& i < j ==> !is_space(s[i]) && !is_space(s[j - 1])
}

proof fn lemma_trim_front(s: Seq<char>) -> (i: int)
    ensures
        0 <= i <= s.len(),
        trim_front(s) == s.subrange(i, s.len() as int),
        forall|k: int| 0 <= k < i ==> is_space(#[trigger] s[k]),
        i < s.len() ==> !is_space(s[i]),
    decreases s.len(),
{
    if s.len() > 0 && is_space(s[0]) {
        let t = s.subrange(1, s.len() as int);
        let j = lemma_trim_front(t);
        assert forall|k: int| 0 <= k < j + 1 implies is_space(#[trigger] s[k]) by {
            if k > 0 {
                assert(t[k - 1] == s[k]);
            }
        }
        assert(t.subrange(j, t.len() as int) =~= s.subrange(j + 1, s.len() as int));
        j + 1
    } else {
        assert(s.subrange(0, s.len() as int) =~= s);
        0
    }
}

proof fn lemma_trim_back(s: Seq<char>) -> (j: int)
    ensures
        0 <= j <= s.len(),
        trim_back(s) == s.subrange(0, j),
        forall|k: int| j <= k < s.len() ==> is_space(#[trigger] s[k]),
        0 < j ==> !is_space(s[j - 1]),
    decreases s.len(),
{
    if s.len() > 0 && is_space(s.last()) {
        let t = s.drop_last();
        let j = lemma_trim_back(t);
        assert forall|k: int| j <= k < s.len() implies is_space(#[trigger] s[k]) by {
            if k < t.len() {
                assert(t[k] == s[k]);
            }
        }
        assert(t.subrange(0, j) =~= s.subrange(0, j));
        j
    } else {
        assert(s.subrange(0, s.len() as int) =~= s);
        s.len() as int
    }
}

/// Trimming takes the white space at both ends away, and nothing else.
pub proof fn law_trimming(s: Seq<char>)
    ensures
        exists|i: int, j: int| #[trigger] core_of(s, i, j) && trim_both(s) == s.subrange(i, j),
{
    let i = lemma_trim_front(s);
    let t = s.subrange(i, s.len() as int);
    let j = lemma_trim_back(t);
    assert(t.subrange(0, j) =~= s.subrange(i, i + j));
    assert forall|k: int| i + j <= k < s.len() implies is_space(#[trigger] s[k]) by {
        assert(t[k - i] == s[k]);
    }
    if j > 0 {
        assert(t[0] == s[i] && t[j - 1] == s[i + j - 1]);
    }
    assert(core_of(s, i, i + j));
}

/// Dropping a character at the end takes all of them there away, and nothing else.
pub proof fn law_dropping_at_the_end(s: Seq<char>, c: char)
    ensures
        exists|j: int|
            {
                &&& 0 <= j <= s.len()
                &&& drop_trailing(s, c) == #[trigger] s.subrange(0, j)
                &&& forall|k: int| j <= k < s.len() ==> #[trigger] s[k] == c
                &&& j > 0 ==> s[j - 1] != c
            },
    decreases s.len(),
{
    if s.len() > 0 && s.last() == c {
        let t = s.drop_last();
        law_dropping_at_the_end(t, c);
        let j = choose|j: int|
            {
                &&& 0 <= j <= t.len()
                &&& drop_trailing(t, c) == #[trigger] t.subrange(0, j)
                &&& forall|k: int| j <= k < t.len() ==> #[trigger] t[k] == c
                &&& j > 0 ==> t[j - 1] != c
            };
        assert(t.subrange(0, j) =~= s.subrange(0, j));
        assert forall|k: int| j <= k < s.len() implies #[trigger] s[k] == c by {
            if k < t.len() {
                assert(t[k] == s[k]);
            }
        }
    } else {
        assert(s.subrange(0, s.len() as int) =~= s);
    }
}

/// Dropping a character at the beginning takes all of them there away, and nothing else.
pub proof fn law_dropping_at_the_beginning(s: Seq<char>, c: char)
    ensures
        exists|i: int|
            {
                &&& 0 <= i <= s.len()
                &&& drop_leading(s, c) == #[trigger] s.subrange(i, s.len() as int)
                &&& forall|k: int| 0 <= k < i ==> #[trigger] s[k] == c
                &&& i < s.len() ==> s[i] != c
            },
    decreases s.len(),
{
    if s.len() > 0 && s[0] == c {
        let t = s.subrange(1, s.len() as int);
        law_dropping_at_the_beginning(t, c);
        let i = choose|i: int|
            {
                &&& 0 <= i <= t.len()
                &&& drop_leading(t, c) == #[trigger] t.subrange(i, t.len() as int)
                &&& forall|k: int| 0 <= k < i ==> #[trigger] t[k] == c
                &&& i < t.len() ==> t[i] != c
            };
        assert(t.subrange(i, t.len() as int) =~= s.subrange(i + 1, s.len() as int));
        assert forall|k: int| 0 <= k < i + 1 implies #[trigger] s[k] == c by {
            if k > 0 {
                assert(t[k - 1] == s[k]);
            }
        }
    } else {
        assert(s.subrange(0, s.len() as int) =~= s);
    }
}

/// The pieces between occurrences of a character, put together with it, are the text again,
/// and none of them holds it.
pub proof fn law_pieces_join_back(s: Seq<char>, c: char)
    ensures
        pieces(s, c).len() > 0,
        joined_with(pieces(s, c), seq![c]) == s,
        forall|k: int| 0 <= k < pieces(s, c).len() ==> !(#[trigger] pieces(s, c)[k]).contains(c),
    decreases s.len(),
{
    let sep = seq![c];
    if s.len() == 0 {
        assert(!s.contains(c));
    } else {
        let t = s.drop_last();
        let x = s.last();
        law_pieces_join_back(t, c);
        let p = pieces(t, c);
        let q = pieces(s, c);
        if x == c {
            assert(q.drop_last() =~= p);
            assert(q.last() =~= Seq::<char>::empty());
            assert(joined_with(q, sep) =~= joined_with(p, sep) + sep);
            assert(t.push(c) =~= s);
        } else {
            assert(q.drop_last() =~= p.drop_last());
            assert(q.last() == p.last().push(x));
            if p.len() == 1 {
                assert(q =~= seq![p[0].push(x)]);
                assert(t.push(x) =~= s);
            } else {
                assert(joined_with(q, sep) =~= joined_with(p, sep).push(x));
                assert(t.push(x) =~= s);
            }
            assert forall|k: int| 0 <= k < q.len() implies !(#[trigger] q[k]).contains(c) by {
                assert(!p[k].contains(c));
                if k == q.len() - 1 {
                    let l = p.last();
                    if l.push(x).contains(c) {
                        let i = l.push(x).index_of(c);
                        if i < l.len() {
                            assert(l[i] == c);
                        }
                    }
                }
            }
        }
    }
}

proof fn lemma_first_separator(s: Seq<char>, i: int)
    requires
        0 <= i <= s.len(),
    ensures
        i <= separator_from(s, i) <= s.len(),
        separator_from(s, i) < s.len() ==> separator_at(s, separator_from(s, i)),
        forall|k: int| i <= k < separator_from(s, i) ==> !(#[trigger] separator_at(s, k)),
    decreases s.len() - i,
{
    if i < s.len() && !separator_at(s, i) {
        lemma_first_separator(s, i + 1);
    }
}

/// A text is taken apart at double colons into at most so many parts; no part but the last
/// one holds a double colon, and that one does only where there are as many parts as there
/// may be.
pub proof fn law_parts_are_seamless(s: Seq<char>, n: nat)
    requires
        n > 0,
    ensures
        0 < parts(s, n).len() <= n,
        forall|k: int| 0 <= k < parts(s, n).len() - 1 ==> seamless(#[trigger] parts(s, n)[k]),
        parts(s, n).len() < n ==> seamless(parts(s, n).last()),
    decreases n,
{
    let i = separator_from(s, 0);
    lemma_first_separator(s, 0);
    let p = parts(s, n);
    if n <= 1 {
    } else if i >= s.len() {
        assert forall|k: int| 0 <= k < s.len() implies !(#[trigger] separator_at(s, k)) by {}
        assert(seamless(s));
    } else {
        let a = s.subrange(0, i);
        let rest = s.subrange(i + 2, s.len() as int);
        law_parts_are_seamless(rest, (n - 1) as nat);
        let q = parts(rest, (n - 1) as nat);
        assert(p == seq![a] + q);
        assert forall|k: int| 0 <= k < a.len() implies !(#[trigger] separator_at(a, k)) by {
            if separator_at(a, k) {
                assert(a[k] == s[k] && a[k + 1] == s[k + 1]);
                assert(separator_at(s, k));
            }
        }
        assert(seamless(a));
        assert forall|k: int| 0 <= k < p.len() - 1 implies seamless(#[trigger] p[k]) by {
            if k > 0 {
                assert(p[k] == q[k - 1]);
            }
        }
        assert(p.last() == q.last());
    }
}

/// Trimming once more changes nothing.
pub proof fn law_trimming_twice(s: Seq<char>)
    ensures
        trim_both(trim_both(s)) == trim_both(s),
{
    law_trimming(s);
    let (i, j) = choose|i: int, j: int| #[trigger]
        core_of(s, i, j) && trim_both(s) == s.subrange(i, j);
    let t = s.subrange(i, j);
    if i < j {
        assert(t[0] == s[i] && t.last() == s[j - 1]);
        lemma_trimmed(t);
    } else {
        assert(t.len() == 0);
        assert(trim_front(t) == t);
    }
}

}
