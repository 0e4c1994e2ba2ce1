//! The files of a transaction log: their names and their lines.
use crate::text::{chars_of, lemma_first_index_is, split_on};
use vstd::prelude::*;

verus! {

/// One object under `_delta_log/`: its file name and what it holds.
#[derive(Debug, Clone)]
pub struct CommitFile {
    pub name: String,
    pub content: Vec<u8>,
}

pub open spec fn is_digit(c: char) -> bool {
    48 <= c as u32 <= 57
}

/// The number that a string of decimal digits writes.
pub open spec fn decimal_value(digits: Seq<char>) -> nat
    decreases digits.len(),
{
    if digits.len() == 0 {
        0
    } else {
        decimal_value(digits.drop_last()) * 10 + (digits.last() as u32 - 48) as nat
    }
}

pub open spec fn pow10(n: nat) -> nat
    decreases n,
{
    if n == 0 {
        1
    } else {
        10 * pow10((n - 1) as nat)
    }
}

/// The version of the commit file called `name`: its twenty digits, where
/// the name is twenty digits followed by `.json`.
pub open spec fn spec_commit_version(name: Seq<char>) -> Option<nat> {
    if name.len() == 25 && (forall|i: int| 0 <= i < 20 ==> is_digit(name[i])) && name.subrange(20, 25)
        == seq!['.', 'j', 's', 'o', 'n'] {
        Some(decimal_value(name.subrange(0, 20)))
    } else {
        None
    }
}

/// The version of the commit file called `name`, or `None` where the name is
/// not that of a commit file.
pub fn commit_version(name: &str) -> (r: Option<u128>)
    ensures
        match r {
            Some(v) => spec_commit_version(name@) == Some(v as nat),
            None => spec_commit_version(name@) is None,
        },
        r matches Some(v) ==> v < 100000000000000000000,
{
    let cs = chars_of(name);
    if cs.len() != 25 {
        return None;
    }
    if cs[20] != '.' || cs[21] != 'j' || cs[22] != 's' || cs[23] != 'o' || cs[24] != 'n' {
        assert(name@.subrange(20, 25)[0] == name@[20]);
        assert(name@.subrange(20, 25)[1] == name@[21]);
        assert(name@.subrange(20, 25)[2] == name@[22]);
        assert(name@.subrange(20, 25)[3] == name@[23]);
        assert(name@.subrange(20, 25)[4] == name@[24]);
        return None;
    }
    assert(name@.subrange(20, 25) =~= seq!['.', 'j', 's', 'o', 'n']);
    let mut value: u128 = 0;
    let mut i: usize = 0;
    while i < 20
        invariant
            i <= 20,
            cs@ == name@,
            cs@.len() == 25,
            forall|j: int| 0 <= j < i ==> is_digit(name@[j]),
            value as nat == decimal_value(name@.subrange(0, i as int)),
            value < pow10(i as nat),
        decreases 20 - i,
    {
        let c = cs[i];
        let d = c as u32;
        if d < 48 || d > 57 {
            return None;
        }
        proof {
            let next = name@.subrange(0, i + 1);
            assert(next.drop_last() =~= name@.subrange(0, i as int));
            assert(next.last() == c);
            reveal_with_fuel(pow10, 21);
            assert(pow10(i as nat) <= pow10(19)) by {
                lemma_pow10_monotone(i as nat, 19);
            }
        }
        value = value * 10 + (d - 48) as u128;
        i += 1;
    }
    proof {
        reveal_with_fuel(pow10, 21);
    }
    Some(value)
}

pub proof fn lemma_pow10_monotone(a: nat, b: nat)
    requires
        a <= b,
    ensures
        pow10(a) <= pow10(b),
    decreases b,
{
    if a < b {
        lemma_pow10_monotone(a, (b - 1) as nat);
    }
}

pub open spec fn newline() -> u8 {
    10
}

/// The lines of `s`: what stands between its newlines, before the first and
/// after the last, empty lines included.
pub open spec fn split_lines(s: Seq<u8>) -> Seq<Seq<u8>> {
    split_on(s, newline())
}

/// The lines of `content`, each as the range of positions it takes.
pub fn line_ranges(content: &[u8]) -> (r: Vec<(usize, usize)>)
    ensures
        r@.len() == split_lines(content@).len(),
        forall|k: int|
            0 <= k < r@.len() ==> (#[trigger] r@[k]).0 <= r@[k].1 <= content@.len() && content@.subrange(
                r@[k].0 as int,
                r@[k].1 as int,
            ) == split_lines(content@)[k],
{
    let ghost all = split_lines(content@);
    let ghost mut done: Seq<Seq<u8>> = Seq::empty();
    let mut r: Vec<(usize, usize)> = Vec::new();
    let mut start: usize = 0;
    let mut i: usize = 0;
    proof {
        assert(content@.skip(0) =~= content@);
        assert(done + all =~= all);
    }
    while i < content.len()
        invariant
            start <= i <= content@.len(),
            all == split_lines(content@),
            all == done + split_on(content@.skip(start as int), newline()),
            forall|j: int| start <= j < i ==> content@[j] != newline(),
            r@.len() == done.len(),
            forall|k: int|
                0 <= k < r@.len() ==> (#[trigger] r@[k]).0 <= r@[k].1 <= content@.len()
                    && content@.subrange(r@[k].0 as int, r@[k].1 as int) == done[k],
        decreases content.len() - i,
    {
        if content[i] == 10 {
            proof {
                let rest = content@.skip(start as int);
                lemma_first_index_is(rest, newline(), i - start);
                assert(rest.take(i - start) =~= content@.subrange(start as int, i as int));
                assert(rest.skip(i - start + 1) =~= content@.skip(i + 1));
                let line = content@.subrange(start as int, i as int);
                assert(done + (seq![line] + split_on(content@.skip(i + 1), newline())) =~= done.push(line)
                    + split_on(content@.skip(i + 1), newline()));
                done = done.push(line);
            }
            r.push((start, i));
            start = i + 1;
        }
        i += 1;
    }
    proof {
        let rest = content@.skip(start as int);
        lemma_first_index_is(rest, newline(), rest.len() as int);
        assert(rest =~= content@.subrange(start as int, content@.len() as int));
        assert(done + seq![rest] =~= done.push(rest));
        done = done.push(rest);
    }
    r.push((start, content.len()));
    r
}

} // verus!
