use vstd::prelude::*;
use vstd::string::{StrSliceExecFns, StringExecFns};

verus! {

/// Separates the entries of a parameter string.
pub const LIST_SEPARATOR: char = ';';

/// Separates the key of an entry from its value.
pub const FIELD_SEPARATOR: char = '=';

/// Separates the items of a list held in one value.
pub const VALUE_SEPARATOR: char = '|';

/// Index of the first `c` in `s`, or `s.len()` if `c` does not occur.
pub open spec fn find_char(s: Seq<char>, c: char) -> nat
    decreases s.len(),
{
    if s.len() == 0 {
        0
    } else if s[0] == c {
        0
    } else {
        1 + find_char(s.drop_first(), c)
    }
}

/// The pieces of `s` between occurrences of `c` (an empty `s` gives one empty piece).
pub open spec fn split_seq(s: Seq<char>, c: char) -> Seq<Seq<char>>
    decreases s.len(),
{
    if s.len() == 0 {
        seq![Seq::<char>::empty()]
    } else {
        let p = split_seq(s.drop_last(), c);
        if s.last() == c {
            p.push(Seq::<char>::empty())
        } else {
            p.update(p.len() - 1, p.last().push(s.last()))
        }
    }
}

/// Splits `s` at its first `c`: what comes before it, and what comes after it
/// (empty when `c` does not occur).
pub open spec fn split_once_seq(s: Seq<char>, c: char) -> (Seq<char>, Seq<char>) {
    let i = find_char(s, c);
    if i < s.len() {
        (s.subrange(0, i as int), s.subrange((i + 1) as int, s.len() as int))
    } else {
        (s, Seq::<char>::empty())
    }
}

/// The entries that a list of pieces stands for: empty pieces are skipped, the
/// others are split at their first field separator.
pub open spec fn pieces_entries(pieces: Seq<Seq<char>>) -> Seq<(Seq<char>, Seq<char>)>
    decreases pieces.len(),
{
    if pieces.len() == 0 {
        Seq::empty()
    } else {
        let rest = pieces_entries(pieces.drop_last());
        if pieces.last().len() == 0 {
            rest
        } else {
            rest.push(split_once_seq(pieces.last(), FIELD_SEPARATOR))
        }
    }
}

/// The `(key, value)` entries of a parameter string, in order.
pub open spec fn entries(s: Seq<char>) -> Seq<(Seq<char>, Seq<char>)> {
    pieces_entries(split_seq(s, LIST_SEPARATOR))
}

/// The value of the first entry of `es` whose key is `k`, if any.
pub open spec fn lookup(es: Seq<(Seq<char>, Seq<char>)>, k: Seq<char>) -> Option<Seq<char>>
    decreases es.len(),
{
    if es.len() == 0 {
        None
    } else if es[0].0 == k {
        Some(es[0].1)
    } else {
        lookup(es.drop_first(), k)
    }
}

/// The list items held in the value of `k` in `s`: none when `k` is absent.
pub open spec fn values_of(s: Seq<char>, k: Seq<char>) -> Seq<Seq<char>> {
    match lookup(entries(s), k) {
        Some(v) => split_seq(v, VALUE_SEPARATOR),
        None => Seq::empty(),
    }
}

/// One entry as written: `key=value`, or the bare key when the value is empty.
pub open spec fn field_text(e: (Seq<char>, Seq<char>)) -> Seq<char> {
    if e.1.len() == 0 {
        e.0
    } else {
        e.0 + seq![FIELD_SEPARATOR] + e.1
    }
}

/// The entries written one after the other, separated by the list separator.
pub open spec fn join(es: Seq<(Seq<char>, Seq<char>)>) -> Seq<char>
    decreases es.len(),
{
    if es.len() == 0 {
        Seq::empty()
    } else if es.len() == 1 {
        field_text(es[0])
    } else {
        join(es.drop_last()) + seq![LIST_SEPARATOR] + field_text(es.last())
    }
}

/// `into` extended by the entries `es`: a list separator goes between the old
/// text and the first entry only when the old text is not empty.
pub open spec fn extend_text(into: Seq<char>, es: Seq<(Seq<char>, Seq<char>)>) -> Seq<char> {
    if es.len() == 0 {
        into
    } else if into.len() == 0 {
        join(es)
    } else {
        into + seq![LIST_SEPARATOR] + join(es)
    }
}

/// Strict lexicographic order on keys, character by character.
pub open spec fn key_lt(a: Seq<char>, b: Seq<char>) -> bool
    decreases a.len(),
{
    if a.len() == 0 {
        b.len() > 0
    } else if b.len() == 0 {
        false
    } else if a[0] != b[0] {
        (a[0] as u32) < (b[0] as u32)
    } else {
        key_lt(a.drop_first(), b.drop_first())
    }
}

/// The keys of `es` never decrease from one entry to the next.
pub open spec fn keys_sorted(es: Seq<(Seq<char>, Seq<char>)>) -> bool {
    forall|i: int| 0 <= i < es.len() - 1 ==> !key_lt(#[trigger] es[i + 1].0, es[i].0)
}

/// Where an entry with key `k` goes in sorted `es`: before the first entry whose
/// key is greater than `k`, so after all entries with an equal key.
pub open spec fn insert_pos(es: Seq<(Seq<char>, Seq<char>)>, k: Seq<char>) -> nat
    decreases es.len(),
{
    if es.len() == 0 {
        0
    } else if key_lt(k, es[0].0) {
        0
    } else {
        1 + insert_pos(es.drop_first(), k)
    }
}

/// `es` sorted by key; entries with equal keys keep their order.
pub open spec fn sort_entries(es: Seq<(Seq<char>, Seq<char>)>) -> Seq<(Seq<char>, Seq<char>)>
    decreases es.len(),
{
    if es.len() == 0 {
        Seq::empty()
    } else {
        let sorted = sort_entries(es.drop_last());
        sorted.insert(insert_pos(sorted, es.last().0) as int, es.last())
    }
}

/// The entries of `es` other than those with key `k`, in order.
pub open spec fn without_key(es: Seq<(Seq<char>, Seq<char>)>, k: Seq<char>) -> Seq<(Seq<char>, Seq<char>)>
    decreases es.len(),
{
    if es.len() == 0 {
        Seq::empty()
    } else if es.last().0 == k {
        without_key(es.drop_last(), k)
    } else {
        without_key(es.drop_last(), k).push(es.last())
    }
}

/// The view of a list of owned `(key, value)` pairs.
pub open spec fn owned_pairs_view(ps: Seq<(String, String)>) -> Seq<(Seq<char>, Seq<char>)> {
    ps.map_values(|p: (String, String)| (p.0@, p.1@))
}

/// The view of a list of borrowed `(key, value)` pairs.
pub open spec fn pairs_view(ps: Seq<(&str, &str)>) -> Seq<(Seq<char>, Seq<char>)> {
    ps.map_values(|p: (&str, &str)| (p.0@, p.1@))
}

proof fn lemma_find_char(s: Seq<char>, c: char, j: int)
    requires
        0 <= j <= s.len(),
        forall|k: int| 0 <= k < j ==> #[trigger] s[k] != c,
        j == s.len() || s[j] == c,
    ensures
        find_char(s, c) == j,
    decreases j,
{
    if j > 0 {
        assert(s[0] != c);
        assert forall|k: int| 0 <= k < j - 1 implies #[trigger] s.drop_first()[k] != c by {
            assert(s[k + 1] != c);
        }
        lemma_find_char(s.drop_first(), c, j - 1);
    }
}

proof fn lemma_lookup_step(es: Seq<(Seq<char>, Seq<char>)>, k: Seq<char>, i: int)
    requires
        0 <= i < es.len(),
        es[i].0 != k,
    ensures
        lookup(es.subrange(i, es.len() as int), k) == lookup(es.subrange(i + 1, es.len() as int), k),
{
    assert(es.subrange(i, es.len() as int).drop_first() =~= es.subrange(i + 1, es.len() as int));
}

proof fn lemma_key_lt_skip(a: Seq<char>, b: Seq<char>, i: int)
    requires
        0 <= i <= a.len(),
        i <= b.len(),
        a.subrange(0, i) == b.subrange(0, i),
    ensures
        key_lt(a, b) == key_lt(a.subrange(i, a.len() as int), b.subrange(i, b.len() as int)),
    decreases i,
{
    if i > 0 {
        assert(a[0] == a.subrange(0, i)[0]);
        assert(b[0] == b.subrange(0, i)[0]);
        assert(a.drop_first().subrange(0, i - 1) =~= a.subrange(0, i).drop_first());
        assert(b.drop_first().subrange(0, i - 1) =~= b.subrange(0, i).drop_first());
        lemma_key_lt_skip(a.drop_first(), b.drop_first(), i - 1);
        assert(a.drop_first().subrange(i - 1, a.len() - 1) =~= a.subrange(i, a.len() as int));
        assert(b.drop_first().subrange(i - 1, b.len() - 1) =~= b.subrange(i, b.len() as int));
    } else {
        assert(a.subrange(0, a.len() as int) =~= a);
        assert(b.subrange(0, b.len() as int) =~= b);
    }
}

proof fn lemma_insert_pos(es: Seq<(Seq<char>, Seq<char>)>, k: Seq<char>, j: int)
    requires
        0 <= j <= es.len(),
        forall|i: int| 0 <= i < j ==> !key_lt(k, #[trigger] es[i].0),
        j == es.len() || key_lt(k, es[j].0),
    ensures
        insert_pos(es, k) == j,
    decreases j,
{
    if j > 0 {
        assert(!key_lt(k, es[0].0));
        assert forall|i: int| 0 <= i < j - 1 implies !key_lt(k, #[trigger] es.drop_first()[i].0) by {
            assert(!key_lt(k, es[i + 1].0));
        }
        lemma_insert_pos(es.drop_first(), k, j - 1);
    }
}

proof fn lemma_split_seq_nonempty(s: Seq<char>, c: char)
    ensures
        split_seq(s, c).len() >= 1,
    decreases s.len(),
{
    if s.len() > 0 {
        lemma_split_seq_nonempty(s.drop_last(), c);
    }
}

/// Whether `c` is an ASCII letter or digit.
pub open spec fn is_alphanumeric(c: char) -> bool {
    ('a' <= c <= 'z') || ('A' <= c <= 'Z') || ('0' <= c <= '9')
}

/// Whether `e` could be drawn by `Parameters::rand`: a key and a value of two to
/// seven ASCII letters or digits each.
pub open spec fn random_entry(e: (Seq<char>, Seq<char>)) -> bool {
    &&& 2 <= e.0.len() < 8
    &&& 2 <= e.1.len() < 8
    &&& forall|i: int| 0 <= i < e.0.len() ==> is_alphanumeric(#[trigger] e.0[i])
    &&& forall|i: int| 0 <= i < e.1.len() ==> is_alphanumeric(#[trigger] e.1[i])
}

/// Relies on rand's `Rng::gen_range` on the thread-local generator: a value in
/// `lo..hi` (it panics on an empty range, which `requires` rules out).
#[verifier::external_body]
fn random_in(lo: usize, hi: usize) -> (r: usize)
    requires
        lo < hi,
    ensures
        lo <= r < hi,
{
    rand::Rng::gen_range(&mut rand::thread_rng(), lo..hi)
}

/// Relies on rand's `Alphanumeric::sample_string` on the thread-local generator:
/// `len` characters, each an ASCII letter or digit.
#[verifier::external_body]
fn random_alphanumeric(len: usize) -> (r: String)
    ensures
        r@.len() == len,
        forall|i: int| 0 <= i < r@.len() ==> is_alphanumeric(#[trigger] r@[i]),
{
    rand::distributions::DistString::sample_string(
        &rand::distributions::Alphanumeric,
        &mut rand::thread_rng(),
        len,
    )
}

/// A flat view of `key=value` entries over a string such as `a=b;c=d|e;f=g`.
pub struct Parameters;

impl Parameters {
    /// Splits `s` at its first `c`.
    fn split_once<'s>(s: &'s str, c: char) -> (r: (&'s str, &'s str))
        ensures
            (r.0@, r.1@) == split_once_seq(s@, c),
    {
        let n = s.unicode_len();
        let mut i: usize = 0;
        while i < n && s.get_char(i) != c
            invariant
                n == s@.len(),
                i <= n,
                forall|k: int| 0 <= k < i ==> s@[k] != c,
            decreases n - i,
        {
            i = i + 1;
        }
        proof {
            lemma_find_char(s@, c, i as int);
        }
        if i < n {
            (s.substring_char(0, i), s.substring_char(i + 1, n))
        } else {
            proof {
                assert(s@.subrange(0, n as int) =~= s@);
            }
            (s.substring_char(0, n), s.substring_char(n, n))
        }
    }

    /// The `(key, value)` entries of `s`, in order: empty entries are skipped, and
    /// an entry without a field separator has an empty value.
    pub fn iter<'s>(s: &'s str) -> (r: Vec<(&'s str, &'s str)>)
        ensures
            pairs_view(r@) == entries(s@),
    {
        let n = s.unicode_len();
        let mut res: Vec<(&'s str, &'s str)> = Vec::new();
        let mut start: usize = 0;
        let mut i: usize = 0;
        proof {
            assert(s@.subrange(0, 0) =~= Seq::<char>::empty());
        }
        while i < n
            invariant
                n == s@.len(),
                start <= i <= n,
                split_seq(s@.subrange(0, i as int), LIST_SEPARATOR).len() >= 1,
                split_seq(s@.subrange(0, i as int), LIST_SEPARATOR).last() == s@.subrange(
                    start as int,
                    i as int,
                ),
                pairs_view(res@) == pieces_entries(
                    split_seq(s@.subrange(0, i as int), LIST_SEPARATOR).drop_last(),
                ),
            decreases n - i,
        {
            let ghost old_split = split_seq(s@.subrange(0, i as int), LIST_SEPARATOR);
            let ghost old_res = res@;
            let ch = s.get_char(i);
            proof {
                assert(s@.subrange(0, i + 1).drop_last() =~= s@.subrange(0, i as int));
            }
            if ch == LIST_SEPARATOR {
                let piece = s.substring_char(start, i);
                if start < i {
                    let e = Self::split_once(piece, FIELD_SEPARATOR);
                    res.push(e);
                }
                proof {
                    let new_split = split_seq(s@.subrange(0, i + 1), LIST_SEPARATOR);
                    assert(new_split == old_split.push(Seq::<char>::empty()));
                    assert(new_split.drop_last() =~= old_split);
                    assert(old_split =~= old_split.drop_last().push(old_split.last()));
                    assert(pairs_view(res@) =~= pieces_entries(old_split));
                    assert(s@.subrange((i + 1) as int, (i + 1) as int) =~= Seq::<char>::empty());
                }
                start = i + 1;
            } else {
                proof {
                    let new_split = split_seq(s@.subrange(0, i + 1), LIST_SEPARATOR);
                    assert(new_split.drop_last() =~= old_split.drop_last());
                    assert(new_split.last() =~= s@.subrange(start as int, i + 1));
                }
            }
            i = i + 1;
        }
        proof {
            assert(s@.subrange(0, n as int) =~= s@);
        }
        let ghost split = split_seq(s@, LIST_SEPARATOR);
        if start < n {
            let piece = s.substring_char(start, n);
            let e = Self::split_once(piece, FIELD_SEPARATOR);
            res.push(e);
        }
        proof {
            assert(split =~= split.drop_last().push(split.last()));
            assert(pairs_view(res@) =~= pieces_entries(split));
        }
        res
    }

    /// Whether two keys hold the same characters.
    pub(crate) fn key_eq(a: &str, b: &str) -> (r: bool)
        ensures
            r == (a@ == b@),
    {
        let n = a.unicode_len();
        if n != b.unicode_len() {
            return false;
        }
        let mut i: usize = 0;
        while i < n
            invariant
                n == a@.len() == b@.len(),
                i <= n,
                a@.subrange(0, i as int) == b@.subrange(0, i as int),
            decreases n - i,
        {
            if a.get_char(i) != b.get_char(i) {
                return false;
            }
            proof {
                assert(a@.subrange(0, i + 1) =~= a@.subrange(0, i as int).push(a@[i as int]));
                assert(b@.subrange(0, i + 1) =~= b@.subrange(0, i as int).push(b@[i as int]));
            }
            i = i + 1;
        }
        proof {
            assert(a@.subrange(0, n as int) =~= a@);
            assert(b@.subrange(0, n as int) =~= b@);
        }
        true
    }

    /// Whether key `a` comes strictly before key `b`.
    fn key_less(a: &str, b: &str) -> (r: bool)
        ensures
            r == key_lt(a@, b@),
    {
        let na = a.unicode_len();
        let nb = b.unicode_len();
        let mut i: usize = 0;
        while i < na && i < nb && a.get_char(i) == b.get_char(i)
            invariant
                na == a@.len(),
                nb == b@.len(),
                i <= na,
                i <= nb,
                a@.subrange(0, i as int) == b@.subrange(0, i as int),
            decreases na - i,
        {
            proof {
                assert(a@.subrange(0, i + 1) =~= a@.subrange(0, i as int).push(a@[i as int]));
                assert(b@.subrange(0, i + 1) =~= b@.subrange(0, i as int).push(b@[i as int]));
            }
            i = i + 1;
        }
        proof {
            lemma_key_lt_skip(a@, b@, i as int);
        }
        if i == na {
            i < nb
        } else if i == nb {
            false
        } else {
            (a.get_char(i) as u32) < (b.get_char(i) as u32)
        }
    }

    /// The value of the first entry of `s` whose key is `k`.
    pub fn get<'s>(s: &'s str, k: &str) -> (r: Option<&'s str>)
        ensures
            r matches Some(v) ==> lookup(entries(s@), k@) == Some(v@),
            r is None ==> lookup(entries(s@), k@) is None,
    {
        let es = Self::iter(s);
        let ghost ev = pairs_view(es@);
        let mut i: usize = 0;
        proof {
            assert(ev.subrange(0, ev.len() as int) =~= ev);
        }
        while i < es.len()
            invariant
                ev == pairs_view(es@),
                ev == entries(s@),
                i <= es@.len(),
                lookup(ev, k@) == lookup(ev.subrange(i as int, ev.len() as int), k@),
            decreases es@.len() - i,
        {
            let (key, value) = es[i];
            if Self::key_eq(key, k) {
                return Some(value);
            }
            proof {
                lemma_lookup_step(ev, k@, i as int);
            }
            i = i + 1;
        }
        None
    }

    /// The pieces of `s` between occurrences of `c`.
    pub(crate) fn split<'s>(s: &'s str, c: char) -> (r: Vec<&'s str>)
        ensures
            r@.map_values(|p: &str| p@) == split_seq(s@, c),
    {
        let n = s.unicode_len();
        let mut res: Vec<&'s str> = Vec::new();
        let mut start: usize = 0;
        let mut i: usize = 0;
        proof {
            assert(s@.subrange(0, 0) =~= Seq::<char>::empty());
        }
        while i < n
            invariant
                n == s@.len(),
                start <= i <= n,
                split_seq(s@.subrange(0, i as int), c) == res@.map_values(|p: &str| p@).push(
                    s@.subrange(start as int, i as int),
                ),
            decreases n - i,
        {
            let ghost old_res = res@.map_values(|p: &str| p@);
            let ch = s.get_char(i);
            proof {
                assert(s@.subrange(0, i + 1).drop_last() =~= s@.subrange(0, i as int));
            }
            if ch == c {
                let piece = s.substring_char(start, i);
                res.push(piece);
                proof {
                    assert(res@.map_values(|p: &str| p@) =~= old_res.push(piece@));
                    assert(s@.subrange((i + 1) as int, (i + 1) as int) =~= Seq::<char>::empty());
                }
                start = i + 1;
            } else {
                proof {
                    assert(s@.subrange(start as int, i + 1) =~= s@.subrange(start as int, i as int).push(ch));
                    assert(old_res.push(s@.subrange(start as int, i as int)).update(
                        old_res.len() as int,
                        s@.subrange(start as int, i + 1),
                    ) =~= old_res.push(s@.subrange(start as int, i + 1)));
                }
            }
            i = i + 1;
        }
        proof {
            assert(s@.subrange(0, n as int) =~= s@);
        }
        let ghost old_res = res@.map_values(|p: &str| p@);
        let piece = s.substring_char(start, n);
        res.push(piece);
        proof {
            assert(res@.map_values(|p: &str| p@) =~= old_res.push(piece@));
        }
        res
    }

    /// The items of the value of `k` in `s`, split at the value separator; none
    /// when `k` is absent.
    pub fn values<'s>(s: &'s str, k: &str) -> (r: Vec<&'s str>)
        ensures
            r@.map_values(|p: &str| p@) == values_of(s@, k@),
    {
        match Self::get(s, k) {
            Some(v) => Self::split(v, VALUE_SEPARATOR),
            None => {
                let r: Vec<&'s str> = Vec::new();
                proof {
                    assert(r@.map_values(|p: &str| p@) =~= Seq::<Seq<char>>::empty());
                }
                r
            },
        }
    }

    /// Appends the entries of `iter` to `into`, separated by the list separator; an
    /// entry with an empty value is written as its bare key.
    pub fn extend_into(iter: &[(&str, &str)], into: &mut String)
        ensures
            final(into)@ == extend_text(old(into)@, pairs_view(iter@)),
    {
        let ghost start = into@;
        let ghost pv = pairs_view(iter@);
        let mut first = into.as_str().is_empty();
        let mut i: usize = 0;
        proof {
            reveal_strlit(";");
            reveal_strlit("=");
            assert(pv.subrange(0, 0) =~= Seq::<(Seq<char>, Seq<char>)>::empty());
        }
        while i < iter.len()
            invariant
                start == old(into)@,
                pv == pairs_view(iter@),
                i <= iter@.len(),
                first == (i == 0 && start.len() == 0),
                into@ == extend_text(start, pv.subrange(0, i as int)),
            decreases iter@.len() - i,
        {
            let (k, v) = iter[i];
            let ghost before = into@;
            proof {
                reveal_strlit(";");
                reveal_strlit("=");
                assert(";"@ =~= seq![LIST_SEPARATOR]);
                assert("="@ =~= seq![FIELD_SEPARATOR]);
            }
            if !first {
                into.append(";");
            }
            let ghost sep = into@;
            into.append(k);
            if !v.is_empty() {
                into.append("=");
                into.append(v);
            }
            proof {
                assert(into@ =~= sep + field_text((k@, v@)));
                let sub = pv.subrange(0, i as int);
                let next = pv.subrange(0, i + 1);
                assert(next.drop_last() =~= sub);
                assert(next.last() == (k@, v@));
                if i == 0 {
                    assert(next =~= seq![(k@, v@)]);
                }
                if i > 0 {
                    assert(join(next) == join(sub) + seq![LIST_SEPARATOR] + field_text((k@, v@)));
                }
                assert(into@ =~= extend_text(start, next));
            }
            first = false;
            i = i + 1;
        }
        proof {
            assert(pv.subrange(0, iter@.len() as int) =~= pv);
        }
    }

    /// The entries of `iter` written out in their order.
    pub fn concat(iter: &[(&str, &str)]) -> (r: String)
        ensures
            r@ == join(pairs_view(iter@)),
    {
        let mut into = String::new();
        Self::extend_into(iter, &mut into);
        into
    }

    /// The entries of `iter` other than those with key `k`, and the value of the
    /// first entry with key `k`.
    fn split_off_key<'s>(iter: &[(&'s str, &'s str)], k: &str) -> (r: (Vec<(&'s str, &'s str)>, Option<&'s str>))
        ensures
            pairs_view(r.0@) == without_key(pairs_view(iter@), k@),
            r.1 matches Some(v) ==> lookup(pairs_view(iter@), k@) == Some(v@),
            r.1 is None ==> lookup(pairs_view(iter@), k@) is None,
    {
        let ghost pv = pairs_view(iter@);
        let mut rest: Vec<(&'s str, &'s str)> = Vec::new();
        let mut found: Option<&'s str> = None;
        let mut i: usize = 0;
        proof {
            assert(pv.subrange(0, 0) =~= Seq::<(Seq<char>, Seq<char>)>::empty());
            assert(pv.subrange(0, pv.len() as int) =~= pv);
        }
        while i < iter.len()
            invariant
                pv == pairs_view(iter@),
                i <= iter@.len(),
                pairs_view(rest@) == without_key(pv.subrange(0, i as int), k@),
                found matches Some(v) ==> lookup(pv, k@) == Some(v@),
                found is None ==> lookup(pv, k@) == lookup(pv.subrange(i as int, pv.len() as int), k@),
            decreases iter@.len() - i,
        {
            let (key, value) = iter[i];
            let ghost before = pairs_view(rest@);
            proof {
                assert(pv.subrange(0, i + 1).drop_last() =~= pv.subrange(0, i as int));
                assert(pv.subrange(0, i + 1).last() == (key@, value@));
            }
            if Self::key_eq(key, k) {
                if found.is_none() {
                    found = Some(value);
                }
            } else {
                rest.push((key, value));
                proof {
                    lemma_lookup_step(pv, k@, i as int);
                    assert(pairs_view(rest@) =~= before.push((key@, value@)));
                }
            }
            i = i + 1;
        }
        (rest, found)
    }

    /// The entries of `iter` without those with key `k`, in canonical form; also
    /// the value of the first entry with key `k`.
    pub fn remove<'s>(iter: &[(&'s str, &'s str)], k: &str) -> (r: (String, Option<&'s str>))
        ensures
            r.0@ == join(sort_entries(without_key(pairs_view(iter@), k@))),
            r.1 matches Some(v) ==> lookup(pairs_view(iter@), k@) == Some(v@),
            r.1 is None ==> lookup(pairs_view(iter@), k@) is None,
    {
        let (rest, found) = Self::split_off_key(iter, k);
        (Self::from_iter(rest.as_slice()), found)
    }

    /// The entries of `iter` with `k=v` in place of every entry with key `k`, in
    /// canonical form; also the value of the first entry with key `k`.
    pub fn insert<'s>(iter: &[(&'s str, &'s str)], k: &'s str, v: &'s str) -> (r: (String, Option<&'s str>))
        ensures
            r.0@ == join(sort_entries(without_key(pairs_view(iter@), k@).push((k@, v@)))),
            r.1 matches Some(x) ==> lookup(pairs_view(iter@), k@) == Some(x@),
            r.1 is None ==> lookup(pairs_view(iter@), k@) is None,
    {
        let (mut rest, found) = Self::split_off_key(iter, k);
        let ghost before = pairs_view(rest@);
        rest.push((k, v));
        proof {
            assert(pairs_view(rest@) =~= before.push((k@, v@)));
        }
        (Self::from_iter(rest.as_slice()), found)
    }

    /// The entries of `iter` sorted by key; entries with equal keys keep their order.
    fn sorted<'s>(iter: &[(&'s str, &'s str)]) -> (r: Vec<(&'s str, &'s str)>)
        ensures
            pairs_view(r@) == sort_entries(pairs_view(iter@)),
    {
        let ghost pv = pairs_view(iter@);
        let mut res: Vec<(&'s str, &'s str)> = Vec::new();
        let mut i: usize = 0;
        proof {
            assert(pv.subrange(0, 0) =~= Seq::<(Seq<char>, Seq<char>)>::empty());
            assert(pairs_view(res@) =~= Seq::<(Seq<char>, Seq<char>)>::empty());
        }
        while i < iter.len()
            invariant
                pv == pairs_view(iter@),
                i <= iter@.len(),
                pairs_view(res@) == sort_entries(pv.subrange(0, i as int)),
            decreases iter@.len() - i,
        {
            let e = iter[i];
            let ghost rv = pairs_view(res@);
            let mut p: usize = 0;
            while p < res.len() && !Self::key_less(e.0, res[p].0)
                invariant
                    rv == pairs_view(res@),
                    p <= res@.len(),
                    forall|j: int| 0 <= j < p ==> !key_lt(e.0@, #[trigger] rv[j].0),
                decreases res@.len() - p,
            {
                p = p + 1;
            }
            proof {
                lemma_insert_pos(rv, e.0@, p as int);
                assert(pv.subrange(0, i + 1).drop_last() =~= pv.subrange(0, i as int));
                assert(pv.subrange(0, i + 1).last() == (e.0@, e.1@));
            }
            res.insert(p, e);
            proof {
                assert(pairs_view(res@) =~= rv.insert(p as int, (e.0@, e.1@)));
            }
            i = i + 1;
        }
        proof {
            assert(pv.subrange(0, iter@.len() as int) =~= pv);
        }
        res
    }

    /// Appends the entries of `iter`, sorted by key, to `into`.
    pub fn from_iter_into(iter: &[(&str, &str)], into: &mut String)
        ensures
            final(into)@ == extend_text(old(into)@, sort_entries(pairs_view(iter@))),
    {
        let from = Self::sorted(iter);
        Self::extend_into(from.as_slice(), into);
    }

    /// The entries of `iter`, sorted by key, written out: the canonical form.
    pub fn from_iter(iter: &[(&str, &str)]) -> (r: String)
        ensures
            r@ == join(sort_entries(pairs_view(iter@))),
    {
        let mut into = String::new();
        Self::from_iter_into(iter, &mut into);
        into
    }

    /// Whether the keys of `iter` never decrease.
    pub fn is_sorted(iter: &[(&str, &str)]) -> (r: bool)
        ensures
            r == keys_sorted(pairs_view(iter@)),
    {
        let ghost pv = pairs_view(iter@);
        let mut i: usize = 1;
        while i < iter.len()
            invariant
                pv == pairs_view(iter@),
                1 <= i,
                i <= iter@.len() || iter@.len() == 0,
                forall|j: int| 0 <= j < i - 1 ==> !key_lt(#[trigger] pv[j + 1].0, pv[j].0),
            decreases iter@.len() - i,
        {
            if Self::key_less(iter[i].0, iter[i - 1].0) {
                assert(key_lt(pv[(i - 1) + 1].0, pv[i - 1].0));
                return false;
            }
            i = i + 1;
        }
        true
    }

    /// Appends the entries `es` to `into` exactly as written out by `join`, with no
    /// separator before the first one.
    pub fn append_joined(es: &[(String, String)], into: &mut String)
        ensures
            final(into)@ == old(into)@ + join(owned_pairs_view(es@)),
    {
        let ghost pv = owned_pairs_view(es@);
        let mut i: usize = 0;
        proof {
            reveal_strlit(";");
            reveal_strlit("=");
            assert(pv.subrange(0, 0) =~= Seq::<(Seq<char>, Seq<char>)>::empty());
            assert(old(into)@ + join(pv.subrange(0, 0)) =~= old(into)@);
        }
        while i < es.len()
            invariant
                pv == owned_pairs_view(es@),
                i <= es@.len(),
                into@ == old(into)@ + join(pv.subrange(0, i as int)),
            decreases es@.len() - i,
        {
            proof {
                reveal_strlit(";");
                reveal_strlit("=");
                assert(";"@ =~= seq![LIST_SEPARATOR]);
                assert("="@ =~= seq![FIELD_SEPARATOR]);
            }
            if i != 0 {
                into.append(";");
            }
            let ghost sep = into@;
            let k = es[i].0.as_str();
            let v = es[i].1.as_str();
            into.append(k);
            if !v.is_empty() {
                into.append("=");
                into.append(v);
            }
            proof {
                let e = (k@, v@);
                let sub = pv.subrange(0, i as int);
                let next = pv.subrange(0, i + 1);
                assert(next.drop_last() =~= sub);
                assert(next.last() == e);
                assert(into@ =~= sep + field_text(e));
                if i == 0 {
                    assert(next =~= seq![e]);
                    assert(join(sub) == Seq::<char>::empty());
                }
                assert(into@ =~= old(into)@ + join(next));
            }
            i = i + 1;
        }
        proof {
            assert(pv.subrange(0, es@.len() as int) =~= pv);
        }
    }

    /// Appends a random parameter string to `into`: two to seven entries, each a
    /// key and a value of two to seven ASCII letters or digits.
    pub fn rand(into: &mut String)
        ensures
            exists|es: Seq<(Seq<char>, Seq<char>)>|
                {
                    &&& 2 <= es.len() < 8
                    &&& forall|i: int| 0 <= i < es.len() ==> random_entry(#[trigger] es[i])
                    &&& final(into)@ == old(into)@ + join(es)
                },
    {
        let num = random_in(2, 8);
        let mut drawn: Vec<(String, String)> = Vec::new();
        let mut i: usize = 0;
        while i < num
            invariant
                2 <= num < 8,
                i <= num,
                drawn@.len() == i,
                forall|j: int| 0 <= j < drawn@.len() ==> random_entry(#[trigger] owned_pairs_view(drawn@)[j]),
            decreases num - i,
        {
            let klen = random_in(2, 8);
            let key = random_alphanumeric(klen);
            let vlen = random_in(2, 8);
            let value = random_alphanumeric(vlen);
            let ghost before = owned_pairs_view(drawn@);
            drawn.push((key, value));
            proof {
                assert(owned_pairs_view(drawn@) =~= before.push((key@, value@)));
            }
            i = i + 1;
        }
        Self::append_joined(drawn.as_slice(), into);
    }
}

/// An entry that the text format can carry: a non-empty key without list or
/// field separator, and a value without list separator.
pub open spec fn writable_entry(e: (Seq<char>, Seq<char>)) -> bool {
    &&& e.0.len() > 0
    &&& !e.0.contains(LIST_SEPARATOR)
    &&& !e.0.contains(FIELD_SEPARATOR)
    &&& !e.1.contains(LIST_SEPARATOR)
}

proof fn lemma_split_seq_concat(a: Seq<char>, b: Seq<char>, c: char)
    ensures
        split_seq(a + seq![c] + b, c) == split_seq(a, c) + split_seq(b, c),
    decreases b.len(),
{
    let s = a + seq![c] + b;
    if b.len() == 0 {
        assert(s.drop_last() =~= a);
        assert(split_seq(b, c) =~= seq![Seq::<char>::empty()]);
        assert(split_seq(s, c) =~= split_seq(a, c) + split_seq(b, c));
    } else {
        assert(s.drop_last() =~= a + seq![c] + b.drop_last());
        lemma_split_seq_concat(a, b.drop_last(), c);
        lemma_split_seq_nonempty(b.drop_last(), c);
        lemma_split_seq_nonempty(a, c);
        let pa = split_seq(a, c);
        let pb = split_seq(b.drop_last(), c);
        if b.last() == c {
            assert(split_seq(s, c) =~= pa + split_seq(b, c));
        } else {
            assert((pa + pb).update((pa + pb).len() - 1, (pa + pb).last().push(b.last())) =~= pa
                + pb.update(pb.len() - 1, pb.last().push(b.last())));
        }
    }
}

proof fn lemma_split_seq_single(b: Seq<char>, c: char)
    requires
        !b.contains(c),
    ensures
        split_seq(b, c) == seq![b],
    decreases b.len(),
{
    if b.len() > 0 {
        assert(!b.drop_last().contains(c)) by {
            if b.drop_last().contains(c) {
                let i = choose|i: int| 0 <= i < b.drop_last().len() && b.drop_last()[i] == c;
                assert(b[i] == c);
            }
        }
        lemma_split_seq_single(b.drop_last(), c);
        assert(b.last() != c) by {
            assert(b[b.len() - 1] == b.last());
        }
        assert(b.drop_last().push(b.last()) =~= b);
        let p = split_seq(b.drop_last(), c);
        assert(p.len() - 1 == 0 && p.last() == b.drop_last());
        assert(seq![b.drop_last()].update(0, b) =~= seq![b]);
    } else {
        assert(b =~= Seq::<char>::empty());
    }
}

proof fn lemma_pieces_entries_concat(a: Seq<Seq<char>>, b: Seq<Seq<char>>)
    ensures
        pieces_entries(a + b) == pieces_entries(a) + pieces_entries(b),
    decreases b.len(),
{
    if b.len() == 0 {
        assert(a + b =~= a);
        assert(pieces_entries(a) + pieces_entries(b) =~= pieces_entries(a));
    } else {
        assert((a + b).drop_last() =~= a + b.drop_last());
        lemma_pieces_entries_concat(a, b.drop_last());
        if b.last().len() == 0 {
        } else {
            assert(pieces_entries(a + b) =~= pieces_entries(a) + pieces_entries(b));
        }
    }
}

proof fn lemma_field_text(e: (Seq<char>, Seq<char>))
    requires
        writable_entry(e),
    ensures
        field_text(e).len() > 0,
        !field_text(e).contains(LIST_SEPARATOR),
        split_once_seq(field_text(e), FIELD_SEPARATOR) == e,
{
    let f = field_text(e);
    if e.1.len() == 0 {
        lemma_find_char(f, FIELD_SEPARATOR, f.len() as int);
        assert(e.1 =~= Seq::<char>::empty());
    } else {
        assert forall|k: int| 0 <= k < e.0.len() implies #[trigger] f[k] != FIELD_SEPARATOR by {
            assert(f[k] == e.0[k]);
        }
        assert(f[e.0.len() as int] == FIELD_SEPARATOR);
        lemma_find_char(f, FIELD_SEPARATOR, e.0.len() as int);
        assert(f.subrange(0, e.0.len() as int) =~= e.0);
        assert(f.subrange((e.0.len() + 1) as int, f.len() as int) =~= e.1);
        assert(!f.contains(LIST_SEPARATOR)) by {
            if f.contains(LIST_SEPARATOR) {
                let i = choose|i: int| 0 <= i < f.len() && f[i] == LIST_SEPARATOR;
                if i < e.0.len() {
                    assert(e.0[i] == LIST_SEPARATOR);
                } else if i > e.0.len() {
                    assert(e.1[i - e.0.len() - 1] == LIST_SEPARATOR);
                }
            }
        }
    }
}

/// Writing entries out and reading them back gives the same entries, when each
/// entry can be carried by the text format.
pub proof fn lemma_entries_of_join(es: Seq<(Seq<char>, Seq<char>)>)
    requires
        forall|i: int| 0 <= i < es.len() ==> writable_entry(#[trigger] es[i]),
    ensures
        entries(join(es)) == es,
    decreases es.len(),
{
    if es.len() == 0 {
        let sp = split_seq(Seq::<char>::empty(), LIST_SEPARATOR);
        assert(join(es) == Seq::<char>::empty());
        assert(sp == seq![Seq::<char>::empty()]);
        assert(sp.drop_last() =~= Seq::<Seq<char>>::empty());
        assert(sp.last().len() == 0);
        assert(pieces_entries(sp) == pieces_entries(sp.drop_last()));
        assert(entries(join(es)) =~= es);
    } else {
        let e = es.last();
        assert(writable_entry(es[es.len() - 1]));
        lemma_field_text(e);
        let f = field_text(e);
        lemma_split_seq_single(f, LIST_SEPARATOR);
        assert(pieces_entries(seq![f]) =~= seq![e]) by {
            assert(seq![f].drop_last() =~= Seq::<Seq<char>>::empty());
            assert(seq![f].last() == f);
            assert(pieces_entries(Seq::<Seq<char>>::empty()) =~= Seq::<(Seq<char>, Seq<char>)>::empty());
        }
        if es.len() == 1 {
            assert(es =~= seq![e]);
        } else {
            let rest = es.drop_last();
            assert forall|i: int| 0 <= i < rest.len() implies writable_entry(#[trigger] rest[i]) by {
                assert(rest[i] == es[i]);
            }
            lemma_entries_of_join(rest);
            lemma_split_seq_concat(join(rest), f, LIST_SEPARATOR);
            lemma_pieces_entries_concat(split_seq(join(rest), LIST_SEPARATOR), seq![f]);
            assert(es =~= rest.push(e));
        }
    }
}

proof fn lemma_key_lt_asymmetric(a: Seq<char>, b: Seq<char>)
    ensures
        key_lt(a, b) ==> !key_lt(b, a),
    decreases a.len(),
{
    if a.len() > 0 && b.len() > 0 && a[0] == b[0] {
        lemma_key_lt_asymmetric(a.drop_first(), b.drop_first());
    }
}

proof fn lemma_insert_pos_bounds(es: Seq<(Seq<char>, Seq<char>)>, k: Seq<char>)
    ensures
        insert_pos(es, k) <= es.len(),
        forall|j: int| 0 <= j < insert_pos(es, k) ==> !key_lt(k, #[trigger] es[j].0),
        insert_pos(es, k) < es.len() ==> key_lt(k, es[insert_pos(es, k) as int].0),
    decreases es.len(),
{
    if es.len() > 0 && !key_lt(k, es[0].0) {
        lemma_insert_pos_bounds(es.drop_first(), k);
        assert forall|j: int| 0 <= j < insert_pos(es, k) implies !key_lt(k, #[trigger] es[j].0) by {
            if j > 0 {
                assert(es[j] == es.drop_first()[j - 1]);
            }
        }
    }
}

proof fn lemma_sort_entries(es: Seq<(Seq<char>, Seq<char>)>)
    ensures
        keys_sorted(sort_entries(es)),
        sort_entries(es).to_multiset() == es.to_multiset(),
    decreases es.len(),
{
    broadcast use vstd::seq_lib::to_multiset_insert, vstd::seq_lib::to_multiset_build;

    if es.len() == 0 {
        assert(sort_entries(es) =~= es);
    } else {
        let s = sort_entries(es.drop_last());
        let e = es.last();
        lemma_sort_entries(es.drop_last());
        lemma_insert_pos_bounds(s, e.0);
        let p = insert_pos(s, e.0) as int;
        let r = s.insert(p, e);
        assert forall|i: int| 0 <= i < r.len() - 1 implies !key_lt(#[trigger] r[i + 1].0, r[i].0) by {
            if i + 1 < p {
                assert(r[i] == s[i] && r[i + 1] == s[i + 1]);
            } else if i + 1 == p {
                assert(r[i] == s[p - 1] && r[i + 1] == e);
            } else if i == p {
                assert(r[i] == e && r[i + 1] == s[p]);
                lemma_key_lt_asymmetric(e.0, s[p].0);
            } else {
                assert(r[i] == s[i - 1] && r[i + 1] == s[i]);
                assert(s[(i - 1) + 1] == s[i]);
            }
        }
        assert(es =~= es.drop_last().push(e));
    }
}

/// Writing entries out in canonical form and reading them back yields the same
/// entries sorted by key, values kept, when each entry can be carried by the text
/// format; the result is sorted and holds exactly the given entries.
pub proof fn lemma_canonical_round_trip(xs: Seq<(Seq<char>, Seq<char>)>)
    requires
        forall|i: int| 0 <= i < xs.len() ==> writable_entry(#[trigger] xs[i]),
    ensures
        entries(join(sort_entries(xs))) == sort_entries(xs),
        keys_sorted(sort_entries(xs)),
        sort_entries(xs).to_multiset() == xs.to_multiset(),
{
    broadcast use vstd::seq_lib::to_multiset_contains;

    lemma_sort_entries(xs);
    let s = sort_entries(xs);
    assert forall|i: int| 0 <= i < s.len() implies writable_entry(#[trigger] s[i]) by {
        assert(s.to_multiset().contains(s[i]));
        assert(xs.to_multiset().contains(s[i]));
        let j = choose|j: int| 0 <= j < xs.len() && xs[j] == s[i];
        assert(writable_entry(xs[j]));
    }
    lemma_entries_of_join(s);
}

/// The value that `get` finds is that of the first entry whose key is `k`: some
/// entry `i` has key `k` and value `v`, and no entry before it has key `k`. When
/// no entry has key `k`, nothing is found.
pub proof fn lemma_lookup_is_first_match(es: Seq<(Seq<char>, Seq<char>)>, k: Seq<char>)
    ensures
        lookup(es, k) matches Some(v) ==> exists|i: int|
            0 <= i < es.len() && (#[trigger] es[i]) == (k, v) && forall|j: int| 0 <= j < i ==> (#[trigger] es[j]).0 != k,
        lookup(es, k) is None <==> forall|i: int| 0 <= i < es.len() ==> (#[trigger] es[i]).0 != k,
    decreases es.len(),
{
    if es.len() > 0 {
        let rest = es.drop_first();
        lemma_lookup_is_first_match(rest, k);
        if es[0].0 == k {
            assert(es[0] == (k, es[0].1));
        } else {
            if let Some(v) = lookup(es, k) {
                let i = choose|i: int|
                    0 <= i < rest.len() && (#[trigger] rest[i]) == (k, v) && forall|j: int| 0 <= j < i ==> (#[trigger] rest[j]).0 != k;
                assert(es[i + 1] == rest[i]);
                assert forall|j: int| 0 <= j < i + 1 implies (#[trigger] es[j]).0 != k by {
                    if j > 0 {
                        assert(es[j] == rest[j - 1]);
                    }
                }
            }
            if forall|i: int| 0 <= i < rest.len() ==> (#[trigger] rest[i]).0 != k {
                assert forall|i: int| 0 <= i < es.len() implies (#[trigger] es[i]).0 != k by {
                    if i > 0 {
                        assert(es[i] == rest[i - 1]);
                    }
                }
            } else {
                let i = choose|i: int| 0 <= i < rest.len() && (#[trigger] rest[i]).0 == k;
                assert(es[i + 1] == rest[i]);
            }
        }
    }
}

} // verus!
