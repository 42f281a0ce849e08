//! Which checkpoints there are, which of them a run resumes from, and which are in the way.
use crate::config::MAX_STEPS;
use crate::order::{is_listed, listed_before, sorted_positions, stable_order};
use crate::text::{
    chars_of, decimal, law_decimal_is_plain, law_decimal_is_read_back, occurs_at, parse, parsed,
    push_decimal, stands_at,
};
use vstd::prelude::*;

verus! {

/// An entry of a directory. A name or path that is not Unicode is not there.
pub struct DirEntry {
    pub name: Option<String>,
    pub path: Option<String>,
}

/// A checkpoint that a directory holds.
pub ghost struct Saved {
    pub path: Seq<char>,
    pub step: usize,
}

/// Name of the checkpoint that a finished run leaves.
pub open spec fn final_name() -> Seq<char> {
    "model_final.bin"@
}

/// Name of the checkpoint saved at a step.
pub open spec fn step_name(step: nat) -> Seq<char> {
    "model_step_"@ + decimal(step) + ".bin"@
}

/// What is left of `text` without the prefix and, behind that, the suffix.
pub open spec fn between(text: Seq<char>, prefix: Seq<char>, suffix: Seq<char>) -> Option<
    Seq<char>,
> {
    if prefix.len() + suffix.len() <= text.len() && occurs_at(text, prefix, 0) && occurs_at(
        text,
        suffix,
        text.len() - suffix.len(),
    ) {
        Some(text.subrange(prefix.len() as int, text.len() - suffix.len()))
    } else {
        None
    }
}

/// Step of the checkpoint that a file name stands for.
pub open spec fn step_in_name(name: Seq<char>) -> Option<usize> {
    match between(name, "model_step_"@, ".bin"@) {
        Some(digits) => parsed(digits),
        None => None,
    }
}

/// Path and step of a checkpoint that was saved along the way.
pub open spec fn periodic(e: DirEntry) -> Option<Saved> {
    match (e.name, e.path) {
        (Some(name), Some(path)) => match step_in_name(name@) {
            Some(step) => Some(Saved { path: path@, step }),
            None => None,
        },
        _ => None,
    }
}

/// Path and step of a checkpoint that a run can resume from. The final one counts as saved at the
/// last step.
pub open spec fn resumable(e: DirEntry) -> Option<Saved> {
    match (e.name, e.path) {
        (Some(name), Some(path)) if name@ == final_name() => Some(
            Saved { path: path@, step: MAX_STEPS },
        ),
        _ => periodic(e),
    }
}

/// Entry `i` is the checkpoint of the greatest step; of several, the last.
pub open spec fn is_latest(entries: Seq<DirEntry>, i: int) -> bool {
    &&& 0 <= i < entries.len()
    &&& resumable(entries[i]) is Some
    &&& forall|j: int|
        0 <= j < entries.len() && (#[trigger] resumable(entries[j])) is Some ==> {
            &&& resumable(entries[j])->0.step <= resumable(entries[i])->0.step
            &&& j > i ==> resumable(entries[j])->0.step < resumable(entries[i])->0.step
        }
}

/// Step of the checkpoint that a file name stands for: `model_step_` and a number and `.bin`.
pub fn checkpoint_step(name: &str) -> (r: Option<usize>)
    ensures
        r == step_in_name(name@),
{
    let chars = chars_of(name);
    let prefix = chars_of("model_step_");
    let suffix = chars_of(".bin");
    if suffix.len() > chars.len() || prefix.len() > chars.len() - suffix.len() {
        return None;
    }
    let end: usize = chars.len() - suffix.len();
    if !stands_at(&chars, &prefix, 0) || !stands_at(&chars, &suffix, end) {
        return None;
    }
    let mut digits: Vec<char> = Vec::new();
    for i in prefix.len()..end
        invariant
            prefix@.len() <= i <= end <= chars@.len(),
            digits@ == chars@.subrange(prefix@.len() as int, i as int),
    {
        digits.push(chars[i]);
    }
    parse(&digits)
}

/// Path of the checkpoint saved at a step.
pub fn checkpoint_path(step: usize) -> (r: String)
    ensures
        r@ == "checkpoints\\"@ + step_name(step as nat),
{
    let mut path: String = String::new();
    path.append("checkpoints\\");
    path.append("model_step_");
    push_decimal(&mut path, step);
    path.append(".bin");
    path
}

fn periodic_step(e: &DirEntry) -> (r: Option<usize>)
    ensures
        match r {
            Some(step) => periodic(*e) is Some && periodic(*e)->0.step == step,
            None => periodic(*e) is None,
        },
{
    match (&e.name, &e.path) {
        (Some(name), Some(_)) => checkpoint_step(name.as_str()),
        _ => None,
    }
}

fn resumable_step(e: &DirEntry) -> (r: Option<usize>)
    ensures
        match r {
            Some(step) => resumable(*e) is Some && resumable(*e)->0.step == step,
            None => resumable(*e) is None,
        },
{
    match (&e.name, &e.path) {
        (Some(name), Some(_)) => {
            let chars = chars_of(name.as_str());
            let expected = chars_of("model_final.bin");
            if chars.len() == expected.len() && stands_at(&chars, &expected, 0) {
                assert(chars@ == chars@.subrange(0, chars@.len() as int));
                Some(MAX_STEPS)
            } else {
                assert(chars@ == chars@.subrange(0, chars@.len() as int));
                periodic_step(e)
            }
        },
        _ => None,
    }
}

/// Path and step of the checkpoint to resume from.
pub fn find_latest_checkpoint(entries: &Vec<DirEntry>) -> (r: Option<(String, usize)>)
    ensures
        match r {
            Some((path, step)) => exists|i: int|
                #[trigger] is_latest(entries@, i) && resumable(entries@[i]) == Some(
                    (Saved { path: path@, step }),
                ),
            None => forall|i: int|
                0 <= i < entries@.len() ==> (#[trigger] resumable(entries@[i])) is None,
        },
{
    let mut best: Option<(usize, usize)> = None;
    for i in 0..entries.len()
        invariant
            match best {
                Some((at, step)) => {
                    &&& is_latest(entries@.take(i as int), at as int)
                    &&& resumable(entries@[at as int])->0.step == step
                },
                None => forall|j: int|
                    0 <= j < i ==> (#[trigger] resumable(entries@[j])) is None,
            },
    {
        let ghost so_far = entries@.take(i as int);
        let ghost next = entries@.take(i + 1);
        assert(forall|j: int| 0 <= j < i ==> next[j] == so_far[j]);
        assert(forall|j: int| 0 <= j < i ==> so_far[j] == entries@[j]);
        assert(next[i as int] == entries@[i as int]);
        let found = resumable_step(&entries[i]);
        match (found, best) {
            (Some(step), Some((at, top))) => {
                if step >= top {
                    best = Some((i, step));
                }
            },
            (Some(step), None) => {
                best = Some((i, step));
            },
            (None, _) => {},
        }
    }
    assert(entries@.take(entries@.len() as int) == entries@);
    match best {
        Some((at, step)) => match &entries[at].path {
            Some(path) => Some((path.clone(), step)),
            None => None,
        },
        None => None,
    }
}

/// Positions of the checkpoints saved along the way.
pub open spec fn periodic_positions(entries: Seq<DirEntry>) -> Seq<int>
    decreases entries.len(),
{
    if entries.len() == 0 {
        Seq::empty()
    } else {
        let before = periodic_positions(entries.drop_last());
        if periodic(entries.last()) is Some {
            before.push(entries.len() - 1)
        } else {
            before
        }
    }
}

/// Steps of the checkpoints saved along the way.
pub open spec fn periodic_steps(entries: Seq<DirEntry>) -> Seq<usize> {
    periodic_positions(entries).map_values(|i: int| periodic(entries[i])->0.step)
}

/// Positions of all but the `keep` newest of these checkpoints, oldest first, when `order` lists
/// them from the oldest to the newest.
pub open spec fn removable(entries: Seq<DirEntry>, keep: int, order: Seq<usize>) -> Seq<int> {
    let positions = periodic_positions(entries);
    let excess = if positions.len() > keep {
        (positions.len() - keep) as nat
    } else {
        0
    };
    Seq::new(excess, |k: int| positions[order[k] as int])
}

/// Paths of the checkpoints to delete so that only the `keep` most recent of those saved along the
/// way stay. Of checkpoints of one step those listed first go first.
pub fn checkpoints_to_remove(entries: &Vec<DirEntry>, keep: usize) -> (r: Vec<String>)
    ensures
        exists|order: Seq<usize>|
            {
                &&& #[trigger] stable_order(periodic_steps(entries@), order)
                &&& r@.map_values(|path: String| path@) == removable(
                    entries@,
                    keep as int,
                    order,
                ).map_values(|i: int| periodic(entries@[i])->0.path)
            },
{
    let mut positions: Vec<usize> = Vec::new();
    let mut steps: Vec<usize> = Vec::new();
    for i in 0..entries.len()
        invariant
            positions@.map_values(|p: usize| p as int) == periodic_positions(
                entries@.take(i as int),
            ),
            steps@ == periodic_steps(entries@.take(i as int)),
            forall|k: int|
                0 <= k < positions@.len() ==> #[trigger] positions@[k] < i && periodic(
                    entries@[positions@[k] as int],
                ) is Some,
    {
        let ghost so_far = entries@.take(i as int);
        let ghost next = entries@.take(i + 1);
        assert(next.drop_last() == so_far);
        let found = periodic_step(&entries[i]);
        let ghost before = positions@;
        let ghost old_steps = steps@;
        if let Some(step) = found {
            positions.push(i);
            steps.push(step);
            assert(positions@.map_values(|p: usize| p as int) == before.map_values(
                |p: usize| p as int,
            ).push(i as int));
        }
        proof {
            let at = periodic_positions(so_far);
            assert forall|k: int| 0 <= k < at.len() implies periodic(
                so_far[#[trigger] at[k]],
            ) == periodic(next[at[k]]) by {
                assert(at[k] == before[k]);
            }
            assert(steps@ == periodic_steps(next));
        }
    }
    assert(entries@.take(entries@.len() as int) == entries@);
    let order = sorted_positions(&steps);
    let excess: usize = if positions.len() > keep { positions.len() - keep } else { 0 };
    let mut paths: Vec<String> = Vec::new();
    let ghost gone = removable(entries@, keep as int, order@);
    let ghost wanted = gone.map_values(|i: int| periodic(entries@[i])->0.path);
    for k in 0..excess
        invariant
            excess <= positions@.len(),
            excess == gone.len(),
            positions@.len() == steps@.len(),
            positions@.map_values(|p: usize| p as int) == periodic_positions(entries@),
            stable_order(steps@, order@),
            gone == removable(entries@, keep as int, order@),
            wanted == gone.map_values(|i: int| periodic(entries@[i])->0.path),
            forall|k: int|
                0 <= k < positions@.len() ==> #[trigger] positions@[k] < entries@.len()
                    && periodic(entries@[positions@[k] as int]) is Some,
            paths@.map_values(|path: String| path@) == wanted.take(k as int),
    {
        let at: usize = positions[order[k]];
        let ghost before = paths@;
        assert(gone[k as int] == at);
        match &entries[at].path {
            Some(path) => {
                paths.push(path.clone());
                assert(paths@.map_values(|path: String| path@) == before.map_values(
                    |path: String| path@,
                ).push(path@));
            },
            None => {},
        }
        assert(wanted.take(k + 1) == wanted.take(k as int).push(wanted[k as int]));
    }
    assert(wanted.take(excess as int) == wanted);
    paths
}

/// The name that a checkpoint is saved under is read back as its step.
pub proof fn law_step_name_is_read_back(step: usize)
    ensures
        step_in_name(step_name(step as nat)) == Some(step),
{
    let name = step_name(step as nat);
    let (prefix, digits, suffix) = ("model_step_"@, decimal(step as nat), ".bin"@);
    law_decimal_is_read_back(step);
    assert(name.subrange(0, prefix.len() as int) == prefix);
    assert(name.subrange(name.len() - suffix.len(), name.len() as int) == suffix);
    assert(name.subrange(prefix.len() as int, name.len() - suffix.len()) == digits);
}

/// Two steps never share a name.
pub proof fn law_step_names_differ(a: usize, b: usize)
    requires
        a != b,
    ensures
        step_name(a as nat) != step_name(b as nat),
{
    law_step_name_is_read_back(a);
    law_step_name_is_read_back(b);
}

/// The final checkpoint is not taken for one saved along the way.
pub proof fn law_final_is_not_periodic(e: DirEntry)
    requires
        e.name is Some,
        e.name->0@ == final_name(),
    ensures
        periodic(e) is None,
{
    reveal_strlit("model_final.bin");
    reveal_strlit("model_step_");
    let name = final_name();
    let prefix = "model_step_"@;
    if occurs_at(name, prefix, 0) {
        assert(name.subrange(0, prefix.len() as int)[6] == name[6]);
        assert(name[6] == 'f');
        assert(prefix[6] == 's');
    }
}

/// A checkpoint just saved is the one that a run resumes from, if no other is of a greater step.
pub proof fn law_saved_checkpoint_is_found(entries: Seq<DirEntry>, saved: DirEntry, step: usize)
    requires
        saved.name is Some,
        saved.name->0@ == step_name(step as nat),
        saved.path is Some,
        forall|i: int|
            0 <= i < entries.len() && (#[trigger] resumable(entries[i])) is Some ==> resumable(
                entries[i],
            )->0.step <= step,
    ensures
        is_latest(entries.push(saved), entries.len() as int),
        resumable(saved) == Some((Saved { path: saved.path->0@, step })),
{
    law_step_name_is_read_back(step);
    if saved.name->0@ == final_name() {
        law_final_is_not_periodic(saved);
    }
    let all = entries.push(saved);
    assert(all[entries.len() as int] == saved);
    assert forall|j: int|
        0 <= j < all.len() && (#[trigger] resumable(all[j])) is Some implies resumable(
        all[j],
    )->0.step <= step by {
        if j < entries.len() {
            assert(all[j] == entries[j]);
        }
    }
}

/// At most one entry is the latest.
pub proof fn law_latest_is_unique(entries: Seq<DirEntry>, i: int, j: int)
    requires
        is_latest(entries, i),
        is_latest(entries, j),
    ensures
        i == j,
{
    assert(resumable(entries[i]) is Some && resumable(entries[j]) is Some);
}

proof fn lemma_positions(entries: Seq<DirEntry>)
    ensures
        forall|k: int|
            0 <= k < periodic_positions(entries).len() ==> {
                let i = #[trigger] periodic_positions(entries)[k];
                0 <= i < entries.len() && periodic(entries[i]) is Some
            },
        forall|a: int, b: int|
            0 <= a < b < periodic_positions(entries).len() ==> #[trigger] periodic_positions(
                entries,
            )[a] < #[trigger] periodic_positions(entries)[b],
        forall|i: int|
            0 <= i < entries.len() && (#[trigger] periodic(entries[i])) is Some
                ==> periodic_positions(entries).contains(i),
    decreases entries.len(),
{
    if entries.len() > 0 {
        let before = entries.drop_last();
        lemma_positions(before);
        let p = periodic_positions(before);
        let q = periodic_positions(entries);
        assert forall|k: int| 0 <= k < q.len() implies {
            let i = #[trigger] q[k];
            0 <= i < entries.len() && periodic(entries[i]) is Some
        } by {
            if k < p.len() {
                assert(q[k] == p[k]);
                assert(before[p[k]] == entries[p[k]]);
            }
        }
        assert forall|i: int|
            0 <= i < entries.len() && (#[trigger] periodic(entries[i])) is Some implies q.contains(
            i,
        ) by {
            if i < before.len() {
                assert(before[i] == entries[i]);
                assert(p.contains(i));
                let k = choose|k: int| 0 <= k < p.len() && p[k] == i;
                assert(q[k] == i);
            } else {
                assert(q[p.len() as int] == i);
            }
        }
    }
}

/// Deleting old checkpoints deletes only such as were saved along the way, and none that is newer
/// than one that stays. Of two of the same step the one listed later stays.
pub proof fn law_cleanup_keeps_the_newest(
    entries: Seq<DirEntry>,
    keep: nat,
    order: Seq<usize>,
    i: int,
    j: int,
)
    requires
        stable_order(periodic_steps(entries), order),
        removable(entries, keep as int, order).contains(i),
        0 <= j < entries.len(),
        periodic(entries[j]) is Some,
        !removable(entries, keep as int, order).contains(j),
    ensures
        0 <= i < entries.len(),
        periodic(entries[i]) is Some,
        periodic(entries[i])->0.step <= periodic(entries[j])->0.step,
        periodic(entries[i])->0.step == periodic(entries[j])->0.step ==> i < j,
{
    lemma_positions(entries);
    let positions = periodic_positions(entries);
    let steps = periodic_steps(entries);
    let gone = removable(entries, keep as int, order);
    let k = choose|k: int| 0 <= k < gone.len() && gone[k] == i;
    assert(positions.contains(j));
    let x = choose|x: int| 0 <= x < positions.len() && positions[x] == j;
    assert(is_listed(order, x));
    let m = choose|m: int| 0 <= m < order.len() && #[trigger] order[m] == x;
    if m < gone.len() {
        assert(gone[m] == j);
    }
    assert(listed_before(steps, order[k] as int, order[m] as int));
}

/// Deleting old checkpoints, unless all are to go, never deletes the one to resume from.
pub proof fn law_cleanup_keeps_the_latest(
    entries: Seq<DirEntry>,
    keep: nat,
    order: Seq<usize>,
    i: int,
)
    requires
        keep > 0,
        stable_order(periodic_steps(entries), order),
        is_latest(entries, i),
    ensures
        !removable(entries, keep as int, order).contains(i),
{
    lemma_positions(entries);
    let positions = periodic_positions(entries);
    let steps = periodic_steps(entries);
    let gone = removable(entries, keep as int, order);
    if gone.contains(i) {
        let k = choose|k: int| 0 <= k < gone.len() && gone[k] == i;
        let last = positions.len() - 1;
        let j = positions[order[last] as int];
        assert(listed_before(steps, order[k] as int, order[last] as int));
        assert(order[k] < positions.len() && order[last] < positions.len());
        assert(periodic(entries[i]) is Some && periodic(entries[j]) is Some);
        if entries[i].name is Some && entries[i].name->0@ == final_name() {
            law_final_is_not_periodic(entries[i]);
        }
        if entries[j].name is Some && entries[j].name->0@ == final_name() {
            law_final_is_not_periodic(entries[j]);
        }
        assert(resumable(entries[j]) == periodic(entries[j]));
        assert(steps[order[k] as int] == periodic(entries[i])->0.step);
        assert(steps[order[last] as int] == periodic(entries[j])->0.step);
    }
}

/// `rest` is what is left of `entries`, in the same order, without those at the positions `gone`.
/// Entry `k` of it stood at `from[k]`.
pub open spec fn is_left(
    entries: Seq<DirEntry>,
    gone: Seq<int>,
    rest: Seq<DirEntry>,
    from: Seq<int>,
) -> bool {
    &&& from.len() == rest.len()
    &&& forall|k: int|
        0 <= k < rest.len() ==> 0 <= #[trigger] from[k] < entries.len() && rest[k]
            == entries[from[k]]
    &&& forall|a: int, b: int|
        0 <= a < b < from.len() ==> #[trigger] from[a] < #[trigger] from[b]
    &&& forall|i: int|
        0 <= i < entries.len() ==> (#[trigger] gone.contains(i) <==> !from.contains(i))
}

/// A cleanup leaves `keep` of the checkpoints saved along the way, or all if there are no more, so
/// that another cleanup right after it finds nothing to delete.
pub proof fn law_cleanup_leaves_as_many_as_asked(
    entries: Seq<DirEntry>,
    keep: nat,
    order: Seq<usize>,
    rest: Seq<DirEntry>,
    from: Seq<int>,
    next_order: Seq<usize>,
)
    requires
        stable_order(periodic_steps(entries), order),
        is_left(entries, removable(entries, keep as int, order), rest, from),
    ensures
        periodic_positions(rest).len() == if keep < periodic_positions(entries).len() {
            keep
        } else {
            periodic_positions(entries).len()
        },
        removable(rest, keep as int, next_order).len() == 0,
{
    lemma_positions(entries);
    lemma_positions(rest);
    let p = periodic_positions(entries);
    let q = periodic_positions(rest);
    let gone = removable(entries, keep as int, order);
    let left = q.map_values(|k: int| from[k]);
    let steps = periodic_steps(entries);
    assert(gone.no_duplicates()) by {
        assert forall|a: int, b: int| 0 <= a < b < gone.len() implies gone[a] != gone[b] by {
            assert(listed_before(steps, order[a] as int, order[b] as int));
            assert(p[order[a] as int] != p[order[b] as int]);
        }
    }
    assert(left.to_set().disjoint(gone.to_set())) by {
        assert forall|x: int| left.contains(x) && gone.contains(x) implies false by {
            let a = choose|a: int| 0 <= a < left.len() && left[a] == x;
            assert(from[q[a]] == x);
            assert(from.contains(x));
        }
    }
    assert(left.to_set() + gone.to_set() == p.to_set()) by {
        assert forall|x: int| left.contains(x) || gone.contains(x) <==> p.contains(x) by {
            if left.contains(x) {
                let a = choose|a: int| 0 <= a < left.len() && left[a] == x;
                assert(rest[q[a]] == entries[from[q[a]]]);
                assert(periodic(entries[x]) is Some);
            }
            if gone.contains(x) {
                let a = choose|a: int| 0 <= a < gone.len() && gone[a] == x;
                assert(p[order[a] as int] == x);
            }
            if p.contains(x) && !gone.contains(x) {
                assert(from.contains(x));
                let k = choose|k: int| 0 <= k < from.len() && from[k] == x;
                assert(periodic(rest[k]) is Some);
                assert(q.contains(k));
                let a = choose|a: int| 0 <= a < q.len() && q[a] == k;
                assert(left[a] == x);
            }
        }
    }
    vstd::set_lib::lemma_set_disjoint_lens(left.to_set(), gone.to_set());
    left.unique_seq_to_set();
    gone.unique_seq_to_set();
    p.unique_seq_to_set();
}

/// After a cleanup a run resumes from the checkpoint that it would have resumed from before.
pub proof fn law_cleanup_does_not_change_resumption(
    entries: Seq<DirEntry>,
    keep: nat,
    order: Seq<usize>,
    rest: Seq<DirEntry>,
    from: Seq<int>,
    i: int,
)
    requires
        keep > 0,
        stable_order(periodic_steps(entries), order),
        is_left(entries, removable(entries, keep as int, order), rest, from),
        is_latest(entries, i),
    ensures
        exists|k: int| #[trigger] is_latest(rest, k) && rest[k] == entries[i],
{
    law_cleanup_keeps_the_latest(entries, keep, order, i);
    assert(from.contains(i));
    let k = choose|k: int| 0 <= k < from.len() && from[k] == i;
    assert forall|j: int| 0 <= j < rest.len() && (#[trigger] resumable(rest[j])) is Some implies {
        &&& resumable(rest[j])->0.step <= resumable(rest[k])->0.step
        &&& j > k ==> resumable(rest[j])->0.step < resumable(rest[k])->0.step
    } by {
        assert(rest[j] == entries[from[j]]);
        assert(resumable(entries[from[j]]) is Some);
    }
    assert(is_latest(rest, k));
}

/// Where a finished run left its checkpoint, none of a smaller step is resumed from.
pub proof fn law_finished_run_stays_finished(entries: Seq<DirEntry>, f: int, i: int)
    requires
        0 <= f < entries.len(),
        entries[f].name is Some,
        entries[f].name->0@ == final_name(),
        entries[f].path is Some,
        is_latest(entries, i),
    ensures
        resumable(entries[i])->0.step >= MAX_STEPS,
{
    assert(resumable(entries[f]) is Some);
}

/// A name stands for a checkpoint of a step exactly if it is `model_step_`, a number that is read
/// as that step, and `.bin`.
pub proof fn law_step_names_are_exact(name: Seq<char>, digits: Seq<char>)
    ensures
        step_in_name("model_step_"@ + digits + ".bin"@) == parsed(digits),
        step_in_name(name) is Some ==> name.len() >= 15 && name == "model_step_"@ + name.subrange(
            11,
            name.len() - 4,
        ) + ".bin"@ && step_in_name(name) == parsed(name.subrange(11, name.len() - 4)),
{
    reveal_strlit("model_step_");
    reveal_strlit(".bin");
    let (prefix, suffix) = ("model_step_"@, ".bin"@);
    let whole = prefix + digits + suffix;
    assert(whole.subrange(0, 11) == prefix);
    assert(whole.subrange(whole.len() - 4, whole.len() as int) == suffix);
    assert(whole.subrange(11, whole.len() - 4) == digits);
    if step_in_name(name) is Some {
        assert(name == name.subrange(0, 11) + name.subrange(11, name.len() - 4) + name.subrange(
            name.len() - 4,
            name.len() as int,
        ));
    }
}

/// Which entries are checkpoints: those with a path whose name is that of the final one, of the
/// last step, or that of a step, of that step. Others are none.
pub proof fn law_which_entries_are_checkpoints(e: DirEntry)
    ensures
        e.name is None || e.path is None ==> resumable(e) is None && periodic(e) is None,
        e.name is Some && e.path is Some ==> {
            let (name, path) = (e.name->0@, e.path->0@);
            &&& name == "model_final.bin"@ ==> periodic(e) is None && resumable(e) == Some(
                Saved { path, step: MAX_STEPS },
            )
            &&& name != "model_final.bin"@ ==> resumable(e) == periodic(e)
            &&& step_in_name(name) matches Some(step) ==> periodic(e) == Some(
                Saved { path, step },
            )
            &&& step_in_name(name) is None ==> periodic(e) is None
        },
{
    if e.name is Some && e.name->0@ == "model_final.bin"@ {
        law_final_is_not_periodic(e);
    }
}

/// The one to resume from is a checkpoint. None of a greater step is there, and none of the same
/// step behind it.
pub proof fn law_latest_is_greatest(entries: Seq<DirEntry>, i: int, j: int)
    requires
        is_latest(entries, i),
        0 <= j < entries.len(),
        resumable(entries[j]) is Some,
    ensures
        0 <= i < entries.len(),
        resumable(entries[i]) is Some,
        resumable(entries[j])->0.step <= resumable(entries[i])->0.step,
        j > i ==> resumable(entries[j])->0.step < resumable(entries[i])->0.step,
{
}

/// Where there is a checkpoint, one of them is the one to resume from.
pub proof fn law_some_checkpoint_is_latest(entries: Seq<DirEntry>, j: int)
    requires
        0 <= j < entries.len(),
        resumable(entries[j]) is Some,
    ensures
        exists|i: int| is_latest(entries, i),
    decreases entries.len(),
{
    let n = entries.len() - 1;
    let before = entries.drop_last();
    assert(forall|k: int| 0 <= k < n ==> before[k] == entries[k]);
    if exists|k: int| 0 <= k < n && (#[trigger] resumable(before[k])) is Some {
        let k = choose|k: int| 0 <= k < n && (#[trigger] resumable(before[k])) is Some;
        law_some_checkpoint_is_latest(before, k);
        let i = choose|i: int| is_latest(before, i);
        if resumable(entries[n]) is Some && resumable(entries[n])->0.step >= resumable(
            entries[i],
        )->0.step {
            assert forall|m: int|
                0 <= m < entries.len() && (#[trigger] resumable(entries[m])) is Some implies {
                &&& resumable(entries[m])->0.step <= resumable(entries[n])->0.step
                &&& m > n ==> resumable(entries[m])->0.step < resumable(entries[n])->0.step
            } by {
                if m < n {
                    assert(resumable(before[m]) is Some);
                }
            }
            assert(is_latest(entries, n));
        } else {
            assert forall|m: int|
                0 <= m < entries.len() && (#[trigger] resumable(entries[m])) is Some implies {
                &&& resumable(entries[m])->0.step <= resumable(entries[i])->0.step
                &&& m > i ==> resumable(entries[m])->0.step < resumable(entries[i])->0.step
            } by {
                if m < n {
                    assert(resumable(before[m]) is Some);
                }
            }
            assert(is_latest(entries, i));
        }
    } else {
        assert(j == n) by {
            if j < n {
                assert(resumable(before[j]) is Some);
            }
        }
        assert forall|m: int|
            0 <= m < entries.len() && (#[trigger] resumable(entries[m])) is Some implies m
            == n by {
            if m < n {
                assert(resumable(before[m]) is Some);
            }
        }
        assert(is_latest(entries, n));
    }
}

/// The periodic checkpoints are those at the listed positions, in order, with their own steps.
pub proof fn law_positions_are_those_of_checkpoints(entries: Seq<DirEntry>, i: int)
    ensures
        periodic_positions(entries).contains(i) <==> 0 <= i < entries.len() && periodic(
            entries[i],
        ) is Some,
        forall|a: int, b: int|
            0 <= a < b < periodic_positions(entries).len() ==> #[trigger] periodic_positions(
                entries,
            )[a] < #[trigger] periodic_positions(entries)[b],
        periodic_steps(entries).len() == periodic_positions(entries).len(),
        forall|k: int|
            0 <= k < periodic_positions(entries).len() ==> #[trigger] periodic_steps(entries)[k]
                == periodic(entries[periodic_positions(entries)[k]])->0.step,
{
    lemma_positions(entries);
    let p = periodic_positions(entries);
    if p.contains(i) {
        let k = choose|k: int| 0 <= k < p.len() && p[k] == i;
        assert(p[k] == i);
    }
    if 0 <= i < entries.len() && periodic(entries[i]) is Some {
        assert(p.contains(i));
    }
}

/// The checkpoints to remove are the oldest, from the oldest on, each as old as the next or older.
pub proof fn law_oldest_go_first(
    entries: Seq<DirEntry>,
    keep: nat,
    order: Seq<usize>,
    a: int,
    b: int,
)
    requires
        stable_order(periodic_steps(entries), order),
        0 <= a < b < removable(entries, keep as int, order).len(),
    ensures
        ({
            let gone = removable(entries, keep as int, order);
            let (x, y) = (periodic(entries[gone[a]])->0.step, periodic(entries[gone[b]])->0.step);
            &&& gone.len() + keep == periodic_positions(entries).len()
            &&& x <= y
            &&& x == y ==> gone[a] < gone[b]
        }),
{
    lemma_positions(entries);
    let (p, steps) = (periodic_positions(entries), periodic_steps(entries));
    assert(listed_before(steps, order[a] as int, order[b] as int));
    assert(order[a] < p.len() && order[b] < p.len());
    assert(steps[order[a] as int] == periodic(entries[p[order[a] as int]])->0.step);
    assert(steps[order[b] as int] == periodic(entries[p[order[b] as int]])->0.step);
}

/// As many checkpoints are removed as are there beyond those to keep: none, if there are no more
/// than that.
pub proof fn law_as_many_go_as_are_too_many(entries: Seq<DirEntry>, keep: nat, order: Seq<usize>)
    ensures
        ({
            let there = periodic_positions(entries).len();
            let gone = removable(entries, keep as int, order).len();
            if there <= keep {
                gone == 0
            } else {
                gone + keep == there
            }
        }),
{
}

/// A checkpoint's name is `model_step_`, its step in plain digits without zeros in front, and
/// `.bin`.
pub proof fn law_step_names_are_plain(step: usize)
    ensures
        ({
            let name = step_name(step as nat);
            let digits = name.subrange(11, name.len() - 4);
            &&& name.len() > 15
            &&& name == "model_step_"@ + digits + ".bin"@
            &&& forall|i: int| 0 <= i < digits.len() ==> '0' <= #[trigger] digits[i] <= '9'
            &&& digits[0] == '0' ==> digits.len() == 1
            &&& parsed(digits) == Some(step)
        }),
{
    reveal_strlit("model_step_");
    reveal_strlit(".bin");
    law_decimal_is_plain(step as nat);
    law_decimal_is_read_back(step);
    let name = step_name(step as nat);
    assert(name.subrange(11, name.len() - 4) == decimal(step as nat));
}

} // verus!
