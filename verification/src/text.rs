//! Operations on texts.
use crate::order::{lemma_utf8_injective, models_of};
use vstd::prelude::*;

verus! {

/// The characters of `s`, in order.
pub fn chars_of(s: &str) -> (r: Vec<char>)
    ensures
        r@ == s@,
{
    let mut r: Vec<char> = Vec::new();
    for c in it: s.chars()
        invariant
            it.seq() == s@,
            r@ == it.seq().take(it.index()),
    {
        r.push(c);
    }
    assert(r@ == s@);
    r
}

/// Whether two byte strings are the same.
pub fn bytes_eq(a: &[u8], b: &[u8]) -> (r: bool)
    ensures
        r == (a@ == b@),
{
    if a.len() != b.len() {
        assert(a@.len() != b@.len());
        return false;
    }
    let mut i: usize = 0;
    while i < a.len()
        invariant
            a@.len() == b@.len(),
            i <= a@.len(),
            forall|j: int| 0 <= j < i ==> a@[j] == b@[j],
        decreases a.len() - i,
    {
        if a[i] != b[i] {
            assert(a@[i as int] != b@[i as int]);
            return false;
        }
        i += 1;
    }
    assert(a@ =~= b@);
    true
}

/// Whether two texts are the same.
pub fn str_eq(a: &str, b: &str) -> (r: bool)
    ensures
        r == (a@ == b@),
{
    let r = bytes_eq(a.as_bytes(), b.as_bytes());
    proof {
        if r {
            lemma_utf8_injective(a@, b@);
        }
    }
    r
}

/// The value of the first entry of `s` that has the key `key`.
pub open spec fn first_bound<V>(s: Seq<(Seq<char>, V)>, key: Seq<char>) -> Option<V>
    decreases s.len(),
{
    if s.len() == 0 {
        None
    } else if s[0].0 == key {
        Some(s[0].1)
    } else {
        first_bound(s.skip(1), key)
    }
}

/// Where no entry before `i` has the key, the entry at `i` decides; where
/// `i` is the length, no entry has the key.
pub proof fn lemma_first_bound_at<V>(s: Seq<(Seq<char>, V)>, key: Seq<char>, i: int)
    requires
        0 <= i <= s.len(),
        forall|j: int| 0 <= j < i ==> (#[trigger] s[j]).0 != key,
        i < s.len() ==> s[i].0 == key,
    ensures
        first_bound(s, key) == if i < s.len() {
            Some(s[i].1)
        } else {
            None
        },
    decreases i,
{
    if i > 0 {
        let t = s.skip(1);
        assert(s[0].0 != key);
        assert forall|j: int| 0 <= j < i - 1 implies (#[trigger] t[j]).0 != key by {
            assert(t[j] == s[j + 1]);
        }
        lemma_first_bound_at(t, key, i - 1);
    }
}

/// The position of the first entry of `entries` that has the key `key`.
pub fn position_of_key<V>(entries: &Vec<(String, V)>, key: &str) -> (r: Option<usize>)
    ensures
        match r {
            Some(i) => i < entries@.len() && entries@[i as int].0@ == key@ && forall|j: int|
                0 <= j < i ==> (#[trigger] entries@[j]).0@ != key@,
            None => forall|j: int| 0 <= j < entries@.len() ==> (#[trigger] entries@[j]).0@ != key@,
        },
{
    let mut i: usize = 0;
    while i < entries.len()
        invariant
            i <= entries@.len(),
            forall|j: int| 0 <= j < i ==> (#[trigger] entries@[j]).0@ != key@,
        decreases entries.len() - i,
    {
        if str_eq(entries[i].0.as_str(), key) {
            return Some(i);
        }
        i += 1;
    }
    None
}

/// The model of an optional text.
pub open spec fn opt_text(o: Option<String>) -> Option<Seq<char>> {
    match o {
        Some(s) => Some(s@),
        None => None,
    }
}

/// A copy of an optional text.
pub fn copy_opt_text(o: &Option<String>) -> (r: Option<String>)
    ensures
        r.deep_view() == o.deep_view(),
{
    match o {
        Some(s) => Some(s.clone()),
        None => None,
    }
}

/// A copy of a list of texts.
pub fn copy_texts(v: &Vec<String>) -> (r: Vec<String>)
    ensures
        r.deep_view() == v.deep_view(),
        models_of::<String>(r@) == models_of::<String>(v@),
{
    let mut r: Vec<String> = Vec::new();
    let mut i: usize = 0;
    while i < v.len()
        invariant
            i <= v.len(),
            r@.len() == i,
            forall|j: int| 0 <= j < i ==> r@[j]@ == v@[j]@,
        decreases v.len() - i,
    {
        r.push(v[i].clone());
        i += 1;
    }
    assert(r.deep_view() =~= v.deep_view());
    assert(models_of::<String>(r@) =~= models_of::<String>(v@));
    r
}

/// Whether `s` begins with `p`.
pub open spec fn has_prefix(s: Seq<char>, p: Seq<char>) -> bool {
    p.len() <= s.len() && s.take(p.len() as int) == p
}

/// `s` without the leading `p`, where it begins with it.
pub open spec fn strip_prefix(s: Seq<char>, p: Seq<char>) -> Seq<char> {
    if has_prefix(s, p) {
        s.skip(p.len() as int)
    } else {
        s
    }
}

/// The number of slashes that `s` begins with.
pub open spec fn leading_slashes(s: Seq<char>) -> int
    decreases s.len(),
{
    if s.len() > 0 && s[0] == '/' {
        1 + leading_slashes(s.skip(1))
    } else {
        0
    }
}

/// `s` without its leading slashes.
pub open spec fn trim_slashes(s: Seq<char>) -> Seq<char> {
    s.skip(leading_slashes(s))
}

pub proof fn lemma_leading_slashes_is(s: Seq<char>, k: int)
    requires
        0 <= k <= s.len(),
        forall|j: int| 0 <= j < k ==> s[j] == '/',
        k < s.len() ==> s[k] != '/',
    ensures
        leading_slashes(s) == k,
    decreases k,
{
    if k > 0 {
        let t = s.skip(1);
        assert forall|j: int| 0 <= j < k - 1 implies t[j] == '/' by {
            assert(t[j] == s[j + 1]);
        }
        lemma_leading_slashes_is(t, k - 1);
    }
}

/// Whether the characters `s` begin with the characters `p`.
pub fn chars_have_prefix(s: &Vec<char>, p: &Vec<char>) -> (r: bool)
    ensures
        r == has_prefix(s@, p@),
{
    if p.len() > s.len() {
        return false;
    }
    let mut i: usize = 0;
    while i < p.len()
        invariant
            i <= p@.len() <= s@.len(),
            forall|j: int| 0 <= j < i ==> s@[j] == p@[j],
        decreases p.len() - i,
    {
        if s[i] != p[i] {
            assert(s@.take(p@.len() as int)[i as int] != p@[i as int]);
            return false;
        }
        i += 1;
    }
    assert(s@.take(p@.len() as int) =~= p@);
    true
}

/// Whether `s` begins with `p`.
pub fn starts_with(s: &str, p: &str) -> (r: bool)
    ensures
        r == has_prefix(s@, p@),
{
    let cs = chars_of(s);
    let ps = chars_of(p);
    chars_have_prefix(&cs, &ps)
}

/// Whether `s` ends with the character `c`.
pub fn ends_with_char(s: &str, c: char) -> (r: bool)
    ensures
        r == (s@.len() > 0 && s@.last() == c),
{
    let cs = chars_of(s);
    cs.len() > 0 && cs[cs.len() - 1] == c
}

/// The path of `full` relative to `root`: without the leading `root`, where
/// it begins with it, and without the slashes that then lead it.
pub open spec fn spec_relative_path(root: Seq<char>, full: Seq<char>) -> Seq<char> {
    trim_slashes(strip_prefix(full, root))
}

/// The path of `full` relative to `root`.
pub fn relative_path(root: &str, full: &str) -> (r: String)
    ensures
        r@ == spec_relative_path(root@, full@),
{
    let cs = chars_of(full);
    let rs = chars_of(root);
    let begin: usize = if chars_have_prefix(&cs, &rs) {
        rs.len()
    } else {
        0
    };
    let ghost stripped = strip_prefix(full@, root@);
    assert(stripped =~= full@.skip(begin as int));
    let mut i: usize = begin;
    while i < cs.len() && cs[i] == '/'
        invariant
            begin <= i <= cs@.len(),
            cs@ == full@,
            stripped == full@.skip(begin as int),
            forall|j: int| begin <= j < i ==> cs@[j] == '/',
        decreases cs.len() - i,
    {
        i += 1;
    }
    proof {
        lemma_leading_slashes_is(stripped, i - begin);
        assert(stripped.skip(i - begin) =~= full@.subrange(i as int, full@.len() as int));
    }
    full.substring_char(i, cs.len()).to_owned()
}

/// Whether `list` holds the text `s`.
pub fn contains_text(list: &Vec<String>, s: &str) -> (r: bool)
    ensures
        r == list.deep_view().contains(s@),
{
    let ghost m = list.deep_view();
    let mut j: usize = 0;
    while j < list.len()
        invariant
            j <= list@.len(),
            m == list.deep_view(),
            forall|i: int| 0 <= i < j ==> m[i] != s@,
        decreases list.len() - j,
    {
        assert(m[j as int] == list@[j as int]@);
        if str_eq(list[j].as_str(), s) {
            return true;
        }
        j += 1;
    }
    false
}

/// `s` without its leading slashes.
pub fn trim_slashes_of(s: &str) -> (r: String)
    ensures
        r@ == trim_slashes(s@),
{
    let cs = chars_of(s);
    let mut i: usize = 0;
    while i < cs.len() && cs[i] == '/'
        invariant
            i <= cs@.len(),
            cs@ == s@,
            forall|j: int| 0 <= j < i ==> cs@[j] == '/',
        decreases cs.len() - i,
    {
        i += 1;
    }
    proof {
        lemma_leading_slashes_is(s@, i as int);
        assert(s@.skip(i as int) =~= s@.subrange(i as int, s@.len() as int));
    }
    s.substring_char(i, cs.len()).to_owned()
}

/// Where the first `c` stands in `s`; the length of `s` where it has none.
pub open spec fn first_index<T>(s: Seq<T>, c: T) -> int
    decreases s.len(),
{
    if s.len() == 0 || s[0] == c {
        0
    } else {
        1 + first_index(s.skip(1), c)
    }
}

/// The pieces of `s` between its occurrences of `c`, the empty ones
/// included.
pub open spec fn split_on<T>(s: Seq<T>, c: T) -> Seq<Seq<T>>
    decreases s.len(),
{
    let i = first_index(s, c);
    if 0 <= i < s.len() {
        seq![s.take(i)] + split_on(s.skip(i + 1), c)
    } else {
        seq![s]
    }
}

pub proof fn lemma_first_index_is<T>(s: Seq<T>, c: T, k: int)
    requires
        0 <= k <= s.len(),
        forall|j: int| 0 <= j < k ==> s[j] != c,
        k < s.len() ==> s[k] == c,
    ensures
        first_index(s, c) == k,
    decreases k,
{
    if k > 0 {
        let t = s.skip(1);
        assert forall|j: int| 0 <= j < k - 1 implies t[j] != c by {
            assert(t[j] == s[j + 1]);
        }
        lemma_first_index_is(t, c, k - 1);
    }
}

/// The pieces of `cs` between its occurrences of `c`, each as the range of
/// positions it takes.
pub fn char_ranges(cs: &Vec<char>, c: char) -> (r: Vec<(usize, usize)>)
    ensures
        r@.len() == split_on(cs@, c).len(),
        r@.len() >= 1,
        forall|k: int|
            0 <= k < r@.len() ==> (#[trigger] r@[k]).0 <= r@[k].1 <= cs@.len() && cs@.subrange(
                r@[k].0 as int,
                r@[k].1 as int,
            ) == split_on(cs@, c)[k],
{
    let ghost all = split_on(cs@, c);
    let ghost mut done: Seq<Seq<char>> = Seq::empty();
    let mut r: Vec<(usize, usize)> = Vec::new();
    let mut start: usize = 0;
    let mut i: usize = 0;
    proof {
        assert(cs@.skip(0) =~= cs@);
        assert(done + all =~= all);
    }
    while i < cs.len()
        invariant
            start <= i <= cs@.len(),
            all == split_on(cs@, c),
            all == done + split_on(cs@.skip(start as int), c),
            forall|j: int| start <= j < i ==> cs@[j] != c,
            r@.len() == done.len(),
            forall|k: int|
                0 <= k < r@.len() ==> (#[trigger] r@[k]).0 <= r@[k].1 <= cs@.len() && cs@.subrange(
                    r@[k].0 as int,
                    r@[k].1 as int,
                ) == done[k],
        decreases cs.len() - i,
    {
        if cs[i] == c {
            proof {
                let rest = cs@.skip(start as int);
                lemma_first_index_is(rest, c, i - start);
                assert(rest.take(i - start) =~= cs@.subrange(start as int, i as int));
                assert(rest.skip(i - start + 1) =~= cs@.skip(i + 1));
                let piece = cs@.subrange(start as int, i as int);
                assert(done + (seq![piece] + split_on(cs@.skip(i + 1), c)) =~= done.push(piece) + split_on(
                    cs@.skip(i + 1),
                    c,
                ));
                done = done.push(piece);
            }
            r.push((start, i));
            start = i + 1;
        }
        i += 1;
    }
    proof {
        let rest = cs@.skip(start as int);
        lemma_first_index_is(rest, c, rest.len() as int);
        assert(rest =~= cs@.subrange(start as int, cs@.len() as int));
        assert(done + seq![rest] =~= done.push(rest));
        done = done.push(rest);
    }
    r.push((start, cs.len()));
    r
}

/// What is left when the leading slashes are gone begins with no slash.
pub proof fn lemma_trimmed(s: Seq<char>)
    ensures
        trim_slashes(s).len() == 0 || trim_slashes(s)[0] != '/',
        0 <= leading_slashes(s) <= s.len(),
    decreases s.len(),
{
    if s.len() > 0 && s[0] == '/' {
        lemma_trimmed(s.skip(1));
        assert(s.skip(1).skip(leading_slashes(s.skip(1))) =~= s.skip(leading_slashes(s)));
    }
}

} // verus!
