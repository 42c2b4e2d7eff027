//! Which backups are kept.
use crate::order;
use crate::order::order_desc;
use vstd::prelude::*;
use vstd::string::StrSliceExecFns;

verus! {

/// How many backups are kept.
pub const KEPT_BACKUPS: usize = 3;

/// A file: its name, and when it was changed last.
pub type File = (String, u64);

/// What a list of files says.
pub open spec fn files_view(v: Seq<File>) -> Seq<(Seq<char>, u64)> {
    v.map_values(|f: File| (f.0@, f.1))
}

/// Whether a text holds another from a place on.
pub open spec fn stands_at(text: Seq<char>, part: Seq<char>, at: int) -> bool {
    0 <= at && at + part.len() <= text.len() && text.subrange(at, at + part.len()) == part
}

/// Whether a text holds another.
pub open spec fn holds_text(text: Seq<char>, part: Seq<char>) -> bool {
    exists|at: int| #[trigger] stands_at(text, part, at)
}

/// Whether a file is a backup, by its name.
pub open spec fn is_backup(name: Seq<char>) -> bool {
    holds_text(name, "_checkpoint_"@) && stands_at(name, ".zip"@, name.len() - 4)
}

fn matches_at(text: &str, part: &str, at: usize) -> (r: bool)
    ensures
        r == stands_at(text@, part@, at as int),
{
    let n = text.unicode_len();
    let m = part.unicode_len();
    if m > n || at > n - m {
        return false;
    }
    let mut i: usize = 0;
    while i < m
        invariant
            i <= m,
            n == text@.len(),
            m == part@.len(),
            m <= n,
            at <= n - m,
            forall|j: int| 0 <= j < i ==> text@[at + j] == #[trigger] part@[j],
        decreases m - i,
    {
        if text.get_char(at + i) != part.get_char(i) {
            assert(text@.subrange(at as int, at + m)[i as int] != part@[i as int]);
            return false;
        }
        i += 1;
    }
    assert(text@.subrange(at as int, at + m) =~= part@);
    true
}

fn contains_text(text: &str, part: &str) -> (r: bool)
    ensures
        r == holds_text(text@, part@),
{
    let n = text.unicode_len();
    let mut at: usize = 0;
    while at <= n
        invariant
            n == text@.len(),
            at <= n + 1,
            forall|j: int| 0 <= j < at ==> !#[trigger] stands_at(text@, part@, j),
        decreases n + 1 - at,
    {
        if matches_at(text, part, at) {
            return true;
        }
        if at == n {
            assert forall|j: int| !#[trigger] stands_at(text@, part@, j) by {}
            return false;
        }
        at += 1;
    }
    false
}

/// Whether a file is a backup, by its name.
pub fn names_backup(name: &str) -> (r: bool)
    ensures
        r == is_backup(name@),
{
    let n = name.unicode_len();
    proof {
        reveal_strlit(".zip");
    }
    if !contains_text(name, "_checkpoint_") {
        return false;
    }
    n >= 4 && matches_at(name, ".zip", n - 4)
}

/// The backups among files, the last one first.
pub open spec fn backups_upto(s: Seq<(Seq<char>, u64)>, n: nat) -> Seq<(Seq<char>, u64)>
    decreases n,
{
    if n == 0 {
        Seq::empty()
    } else if is_backup(s[n - 1].0) {
        seq![s[n - 1]] + backups_upto(s, (n - 1) as nat)
    } else {
        backups_upto(s, (n - 1) as nat)
    }
}

/// The times of files.
pub open spec fn changed(s: Seq<(Seq<char>, u64)>) -> Seq<u64> {
    s.map_values(|f: (Seq<char>, u64)| f.1)
}

/// The backups among files, the newest first; of two that were changed at the
/// same time, the one that is listed later.
pub open spec fn newest_first(s: Seq<(Seq<char>, u64)>) -> Seq<(Seq<char>, u64)> {
    let b = backups_upto(s, s.len());
    Seq::new(b.len(), |i: int| b[order::order_of(changed(b))[i]])
}

/// The backups that are not kept: all but a number of the newest.
pub open spec fn outdated(s: Seq<(Seq<char>, u64)>, keep: nat) -> Seq<Seq<char>> {
    let b = newest_first(s);
    Seq::new(
        if b.len() > keep {
            (b.len() - keep) as nat
        } else {
            0
        },
        |i: int| b[keep + i].0,
    )
}

/// The backups that are not kept, the newest of them first.
pub fn rotate_backups(files: &Vec<File>, keep: usize) -> (r: Vec<String>)
    ensures
        r@.map_values(|n: String| n@) == outdated(files_view(files@), keep as nat),
{
    let ghost s = files_view(files@);
    let mut chosen: Vec<usize> = Vec::new();
    let mut n: usize = files.len();
    let ghost all = backups_upto(s, s.len());
    assert(all =~= Seq::<(Seq<char>, u64)>::empty() + backups_upto(s, n as nat));
    let ghost mut b = Seq::<(Seq<char>, u64)>::empty();
    while n > 0
        invariant
            n <= files@.len(),
            s == files_view(files@),
            all == backups_upto(s, s.len()),
            all == b + backups_upto(s, n as nat),
            b.len() == chosen@.len(),
            forall|i: int|
                0 <= i < chosen@.len() ==> #[trigger] chosen@[i] < files@.len() && b[i]
                    == s[chosen@[i] as int],
        decreases n,
    {
        n -= 1;
        assert(s[n as int] == (files@[n as int].0@, files@[n as int].1));
        if names_backup(files[n].0.as_str()) {
            chosen.push(n);
            proof {
                assert(b + (seq![s[n as int]] + backups_upto(s, n as nat)) =~= b.push(s[n as int])
                    + backups_upto(s, n as nat));
                b = b.push(s[n as int]);
            }
        }
    }
    assert(b =~= all);
    let mut keys: Vec<u64> = Vec::new();
    let mut j: usize = 0;
    while j < chosen.len()
        invariant
            j <= chosen@.len(),
            s == files_view(files@),
            b.len() == chosen@.len(),
            forall|i: int|
                0 <= i < chosen@.len() ==> #[trigger] chosen@[i] < files@.len() && b[i]
                    == s[chosen@[i] as int],
            keys@.len() == j,
            forall|i: int| 0 <= i < j ==> #[trigger] keys@[i] == b[i].1,
        decreases chosen@.len() - j,
    {
        let k: usize = chosen[j];
        assert(b[j as int] == s[k as int]);
        keys.push(files[k].1);
        j += 1;
    }
    assert(keys@ =~= changed(b));
    let o = order_desc(&keys);
    let mut out: Vec<String> = Vec::new();
    let mut i: usize = if keep < o.len() {
        keep
    } else {
        o.len()
    };
    let ghost start = i as int;
    while i < o.len()
        invariant
            start <= i <= o@.len(),
            start == if keep < o@.len() {
                keep as int
            } else {
                o@.len() as int
            },
            s == files_view(files@),
            o@.len() == b.len(),
            b.len() == chosen@.len(),
            order::places(o@) == order::order_of(changed(b)),
            forall|m: int| 0 <= m < o@.len() ==> #[trigger] o@[m] < chosen@.len(),
            forall|m: int|
                0 <= m < chosen@.len() ==> #[trigger] chosen@[m] < files@.len() && b[m]
                    == s[chosen@[m] as int],
            out@.len() == i - start,
            forall|m: int|
                0 <= m < out@.len() ==> (#[trigger] out@[m])@ == b[order::order_of(
                    changed(b),
                )[start + m]].0,
        decreases o@.len() - i,
    {
        let p: usize = o[i];
        let k: usize = chosen[p];
        proof {
            assert(order::places(o@)[i as int] == p);
            assert(b[p as int] == s[k as int]);
        }
        out.push(files[k].0.clone());
        i += 1;
    }
    assert(out@.map_values(|n: String| n@) =~= outdated(s, keep as nat));
    out
}

/// A backup that is kept is no older than one that is not.
pub proof fn law_newest_kept(s: Seq<(Seq<char>, u64)>, i: int, j: int)
    requires
        0 <= i < j < newest_first(s).len(),
    ensures
        newest_first(s)[i].1 >= newest_first(s)[j].1,
{
    let b = backups_upto(s, s.len());
    order::law_order_sorts(changed(b), b.len());
    let o = order::order_of(changed(b));
    assert(changed(b)[o[i]] == b[o[i]].1);
    assert(changed(b)[o[j]] == b[o[j]].1);
}

} // verus!
