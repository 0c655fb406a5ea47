//! Summarising a log: counts per category and the frequency of each code.
use vstd::prelude::*;

use crate::model::{Action, ActionCounts, ActionType, AnalysisResult, BattleLog};
use crate::text::{lemma_lex_irreflexive, lemma_lex_total, lemma_lex_transitive, lex_less, str_eq, str_less};

verus! {

/// How many of `s` are of category `t`.
pub open spec fn category_count(s: Seq<Action>, t: ActionType) -> nat
    decreases s.len(),
{
    if s.len() == 0 {
        0
    } else {
        category_count(s.drop_last(), t) + if s.last().action_type == t {
            1nat
        } else {
            0nat
        }
    }
}

/// How many of `s` carry the action code `code`.
pub open spec fn occurrences(s: Seq<Action>, code: Seq<char>) -> nat
    decreases s.len(),
{
    if s.len() == 0 {
        0
    } else {
        occurrences(s.drop_last(), code) + if s.last().original_id@ == code {
            1nat
        } else {
            0nat
        }
    }
}

/// A frequency-table entry as its code and its count.
pub open spec fn entry_views(t: Seq<(String, u32)>) -> Seq<(Seq<char>, u32)> {
    t.map_values(|e: (String, u32)| (e.0@, e.1))
}

/// The sum of the counts of a table.
pub open spec fn sum_counts(t: Seq<(Seq<char>, u32)>) -> int
    decreases t.len(),
{
    if t.len() == 0 {
        0
    } else {
        sum_counts(t.drop_last()) + t.last().1
    }
}

/// The order of a frequency table: higher count first, equal counts by code.
pub open spec fn entry_before(a: (Seq<char>, u32), b: (Seq<char>, u32)) -> bool {
    a.1 > b.1 || (a.1 == b.1 && lex_less(a.0, b.0))
}

/// `t` is the frequency table of `actions`: one entry for each code that
/// occurs, with the number of its occurrences, in the order of `entry_before`.
pub open spec fn is_frequency_table(actions: Seq<Action>, t: Seq<(Seq<char>, u32)>) -> bool {
    &&& forall|i: int| 0 <= i < t.len() ==> (#[trigger] t[i]).1 == occurrences(actions, t[i].0)
        && t[i].1 >= 1
    &&& forall|k: int|
        0 <= k < actions.len() ==> exists|i: int|
            0 <= i < t.len() && (#[trigger] t[i]).0 == (#[trigger] actions[k]).original_id@
    &&& forall|i: int, j: int| 0 <= i < j < t.len() ==> entry_before(#[trigger] t[i], #[trigger] t[j])
    &&& forall|i: int, j: int|
        0 <= i < t.len() && 0 <= j < t.len() && i != j ==> (#[trigger] t[i]).0 != (#[trigger] t[j]).0
}

proof fn lemma_before_total(a: (Seq<char>, u32), b: (Seq<char>, u32))
    requires
        a.0 != b.0,
    ensures
        entry_before(a, b) || entry_before(b, a),
{
    lemma_lex_total(a.0, b.0);
}

proof fn lemma_before_transitive(a: (Seq<char>, u32), b: (Seq<char>, u32), c: (Seq<char>, u32))
    requires
        entry_before(a, b),
        entry_before(b, c),
    ensures
        entry_before(a, c),
{
    if a.1 == b.1 && b.1 == c.1 {
        lemma_lex_transitive(a.0, b.0, c.0);
    }
}

proof fn lemma_occurrences_bound(s: Seq<Action>, code: Seq<char>)
    ensures
        occurrences(s, code) <= s.len(),
    decreases s.len(),
{
    if s.len() > 0 {
        lemma_occurrences_bound(s.drop_last(), code);
    }
}

proof fn lemma_occurrences_absent(s: Seq<Action>, code: Seq<char>)
    requires
        forall|k: int| 0 <= k < s.len() ==> (#[trigger] s[k]).original_id@ != code,
    ensures
        occurrences(s, code) == 0,
    decreases s.len(),
{
    if s.len() > 0 {
        lemma_occurrences_absent(s.drop_last(), code);
    }
}

proof fn lemma_sum_update(t: Seq<(Seq<char>, u32)>, i: int, e: (Seq<char>, u32))
    requires
        0 <= i < t.len(),
    ensures
        sum_counts(t.update(i, e)) == sum_counts(t) - t[i].1 + e.1,
    decreases t.len(),
{
    if i < t.len() - 1 {
        assert(t.update(i, e).drop_last() =~= t.drop_last().update(i, e));
        lemma_sum_update(t.drop_last(), i, e);
    } else {
        assert(t.update(i, e).drop_last() =~= t.drop_last());
    }
}

proof fn lemma_sum_insert(t: Seq<(Seq<char>, u32)>, i: int, e: (Seq<char>, u32))
    requires
        0 <= i <= t.len(),
    ensures
        sum_counts(t.insert(i, e)) == sum_counts(t) + e.1,
    decreases t.len(),
{
    if i < t.len() {
        assert(t.insert(i, e).drop_last() =~= t.drop_last().insert(i, e));
        lemma_sum_insert(t.drop_last(), i, e);
    } else {
        assert(t.insert(i, e).drop_last() =~= t);
    }
}

/// Counts the actions of each category, by the category each one carries.
pub fn count_actions(battle_log: &BattleLog) -> (r: ActionCounts)
    requires
        battle_log.actions@.len() <= u32::MAX,
    ensures
        r.attack_count == category_count(battle_log.actions@, ActionType::Attack),
        r.shield_count == category_count(battle_log.actions@, ActionType::Shield),
        r.dodge_count == category_count(battle_log.actions@, ActionType::Dodge),
        r.spec_total() == battle_log.actions@.len(),
{
    let actions = &battle_log.actions;
    let mut counts = ActionCounts::new();
    let mut k: usize = 0;
    while k < actions.len()
        invariant
            k <= actions@.len() <= u32::MAX,
            counts.attack_count == category_count(actions@.take(k as int), ActionType::Attack),
            counts.shield_count == category_count(actions@.take(k as int), ActionType::Shield),
            counts.dodge_count == category_count(actions@.take(k as int), ActionType::Dodge),
            counts.spec_total() == k,
        decreases actions@.len() - k,
    {
        assert(actions@.take(k + 1).drop_last() =~= actions@.take(k as int));
        counts.increment(&actions[k].action_type);
        k += 1;
    }
    assert(actions@.take(k as int) =~= actions@);
    counts
}

/// The distinct codes of `actions` with their counts, in order of first
/// occurrence. A `Vec` keyed by linear search stands in for a map here: vstd
/// specifies `BTreeMap`, but with `String` keys its lookups and inserts come
/// with nothing that a proof of the counts could use.
fn tally_codes(actions: &Vec<Action>) -> (r: Vec<(String, u32)>)
    requires
        actions@.len() <= u32::MAX,
    ensures
        forall|i: int|
            0 <= i < r@.len() ==> (#[trigger] entry_views(r@)[i]).1 == occurrences(
                actions@,
                entry_views(r@)[i].0,
            ) && entry_views(r@)[i].1 >= 1,
        forall|q: int|
            0 <= q < actions@.len() ==> exists|i: int|
                0 <= i < r@.len() && (#[trigger] entry_views(r@)[i]).0 == (
                #[trigger] actions@[q]).original_id@,
        forall|i: int, j: int|
            0 <= i < r@.len() && 0 <= j < r@.len() && i != j ==> (#[trigger] entry_views(r@)[i]).0
                != (#[trigger] entry_views(r@)[j]).0,
        sum_counts(entry_views(r@)) == actions@.len(),
{
    let ghost all = actions@;
    let mut found: Vec<(String, u32)> = Vec::new();
    let mut k: usize = 0;
    assert(entry_views(found@) =~= Seq::empty());
    while k < actions.len()
        invariant
            k <= all.len() <= u32::MAX,
            all == actions@,
            forall|i: int|
                0 <= i < found@.len() ==> (#[trigger] entry_views(found@)[i]).1 == occurrences(
                    all.take(k as int),
                    entry_views(found@)[i].0,
                ) && entry_views(found@)[i].1 >= 1,
            forall|q: int|
                0 <= q < k ==> exists|i: int|
                    0 <= i < found@.len() && (#[trigger] entry_views(found@)[i]).0 == (
                    #[trigger] all[q]).original_id@,
            forall|i: int, j: int|
                0 <= i < found@.len() && 0 <= j < found@.len() && i != j ==> (
                #[trigger] entry_views(found@)[i]).0 != (#[trigger] entry_views(found@)[j]).0,
            sum_counts(entry_views(found@)) == k,
        decreases all.len() - k,
    {
        let ghost before = entry_views(found@);
        let ghost prev = all.take(k as int);
        let ghost next = all.take(k + 1);
        assert(next.drop_last() =~= prev);
        assert(next.last() == all[k as int]);
        let code = &actions[k].original_id;
        let mut idx: usize = 0;
        while idx < found.len() && !str_eq(found[idx].0.as_str(), code.as_str())
            invariant
                idx <= found@.len(),
                forall|i: int| 0 <= i < idx ==> (#[trigger] found@[i]).0@ != code@,
            decreases found@.len() - idx,
        {
            idx += 1;
        }
        proof {
            lemma_occurrences_bound(prev, code@);
        }
        if idx < found.len() {
            let n = found[idx].1;
            assert(entry_views(found@)[idx as int] == (found@[idx as int].0@, n));
            let entry = (found[idx].0.clone(), n + 1);
            found.set(idx, entry);
            assert(entry_views(found@) =~= before.update(idx as int, (code@, (n + 1) as u32)));
            proof {
                lemma_sum_update(before, idx as int, (code@, (n + 1) as u32));
                assert forall|i: int| 0 <= i < found@.len() implies (#[trigger] entry_views(
                    found@,
                )[i]).1 == occurrences(next, entry_views(found@)[i].0) && entry_views(
                    found@,
                )[i].1 >= 1 by {
                    if i != idx {
                        assert(before[i].0 != before[idx as int].0);
                    }
                }
                assert forall|q: int| 0 <= q < k + 1 implies exists|i: int|
                    0 <= i < found@.len() && (#[trigger] entry_views(found@)[i]).0 == (
                    #[trigger] all[q]).original_id@ by {
                    if q < k {
                        let i = choose|i: int|
                            0 <= i < before.len() && (#[trigger] before[i]).0 == all[q].original_id@;
                        assert(entry_views(found@)[i].0 == before[i].0);
                    } else {
                        assert(entry_views(found@)[idx as int].0 == all[q].original_id@);
                    }
                }
            }
        } else {
            proof {
                assert forall|q: int| 0 <= q < prev.len() implies (#[trigger] prev[q]).original_id@
                    != code@ by {
                    let i = choose|i: int|
                        0 <= i < before.len() && (#[trigger] before[i]).0 == all[q].original_id@;
                    assert(found@[i].0@ == before[i].0);
                }
                lemma_occurrences_absent(prev, code@);
            }
            found.push((code.clone(), 1));
            assert(entry_views(found@) =~= before.push((code@, 1u32)));
            assert(entry_views(found@).drop_last() =~= before);
            proof {
                assert forall|q: int| 0 <= q < k + 1 implies exists|i: int|
                    0 <= i < found@.len() && (#[trigger] entry_views(found@)[i]).0 == (
                    #[trigger] all[q]).original_id@ by {
                    if q < k {
                        let i = choose|i: int|
                            0 <= i < before.len() && (#[trigger] before[i]).0 == all[q].original_id@;
                        assert(entry_views(found@)[i].0 == before[i].0);
                    } else {
                        assert(entry_views(found@)[before.len() as int].0 == all[q].original_id@);
                    }
                }
            }
        }
        k += 1;
    }
    assert(all.take(k as int) =~= all);
    found
}

/// Whether entry `a` comes before entry `b` in a frequency table.
fn entry_precedes(a: &(String, u32), b: &(String, u32)) -> (r: bool)
    ensures
        r == entry_before((a.0@, a.1), (b.0@, b.1)),
{
    a.1 > b.1 || (a.1 == b.1 && str_less(a.0.as_str(), b.0.as_str()))
}

/// Each entry of `t` is among the first `m` entries of `u`.
#[verifier::opaque]
spec fn drawn_from(t: Seq<(Seq<char>, u32)>, u: Seq<(Seq<char>, u32)>, m: int) -> bool {
    forall|i: int| 0 <= i < t.len() ==> exists|j: int| 0 <= j < m && #[trigger] t[i] == #[trigger] u[j]
}

/// Each of the first `m` entries of `u` is in `t`.
#[verifier::opaque]
spec fn covers(t: Seq<(Seq<char>, u32)>, u: Seq<(Seq<char>, u32)>, m: int) -> bool {
    forall|j: int| 0 <= j < m ==> exists|i: int| 0 <= i < t.len() && #[trigger] t[i] == #[trigger] u[j]
}

/// `t` is in the order of `entry_before`.
#[verifier::opaque]
spec fn in_order(t: Seq<(Seq<char>, u32)>) -> bool {
    forall|i: int, j: int| 0 <= i < j < t.len() ==> entry_before(#[trigger] t[i], #[trigger] t[j])
}

/// No two entries of `t` share a code.
spec fn distinct_codes(t: Seq<(Seq<char>, u32)>) -> bool {
    forall|i: int, j: int| 0 <= i < t.len() && 0 <= j < t.len() && i != j ==> (#[trigger] t[i]).0 != (#[trigger] t[j]).0
}

/// Inserting an entry where it belongs keeps a table sorted.
proof fn lemma_insert_sorted(t: Seq<(Seq<char>, u32)>, pos: int, x: (Seq<char>, u32))
    requires
        0 <= pos <= t.len(),
        in_order(t),
        forall|q: int| 0 <= q < pos ==> entry_before(#[trigger] t[q], x),
        pos < t.len() ==> entry_before(x, t[pos]),
    ensures
        in_order(t.insert(pos, x)),
{
    reveal(in_order);
    let n = t.insert(pos, x);
    assert forall|q: int| pos <= q < t.len() implies entry_before(x, #[trigger] t[q]) by {
        if q > pos {
            lemma_before_transitive(x, t[pos], t[q]);
        }
    }
    assert forall|i: int, j: int| 0 <= i < j < n.len() implies entry_before(
        #[trigger] n[i],
        #[trigger] n[j],
    ) by {
        if j < pos {
            assert(entry_before(t[i], t[j]));
        } else if j == pos {
            assert(entry_before(t[i], x));
        } else if i < pos {
            assert(entry_before(t[i], t[j - 1]));
        } else if i == pos {
            assert(entry_before(x, t[j - 1]));
        } else {
            assert(entry_before(t[i - 1], t[j - 1]));
        }
    }
}

/// An entry drawn from the first `m` of `u` has another code than `u[m]`.
proof fn lemma_drawn_code(t: Seq<(Seq<char>, u32)>, u: Seq<(Seq<char>, u32)>, m: int, i: int)
    requires
        drawn_from(t, u, m),
        distinct_codes(u),
        0 <= m < u.len(),
        0 <= i < t.len(),
    ensures
        t[i].0 != u[m].0,
{
    reveal(drawn_from);
    let j = choose|j: int| 0 <= j < m && #[trigger] t[i] == #[trigger] u[j];
    assert(u[j].0 != u[m].0);
}

/// Inserting the next entry of `u` into a table made of the first `m`
/// keeps the table made of exactly the first `m + 1`.
proof fn lemma_insert_members(t: Seq<(Seq<char>, u32)>, pos: int, u: Seq<(Seq<char>, u32)>, m: int)
    requires
        0 <= pos <= t.len(),
        0 <= m < u.len(),
        drawn_from(t, u, m),
        covers(t, u, m),
    ensures
        drawn_from(t.insert(pos, u[m]), u, m + 1),
        covers(t.insert(pos, u[m]), u, m + 1),
{
    reveal(drawn_from);
    reveal(covers);
    let n = t.insert(pos, u[m]);
    assert forall|i: int| 0 <= i < n.len() implies exists|j: int|
        0 <= j < m + 1 && #[trigger] n[i] == #[trigger] u[j] by {
        if i < pos {
            let j = choose|j: int| 0 <= j < m && #[trigger] t[i] == #[trigger] u[j];
            assert(n[i] == u[j]);
        } else if i == pos {
            assert(n[i] == u[m]);
        } else {
            let j = choose|j: int| 0 <= j < m && #[trigger] t[i - 1] == #[trigger] u[j];
            assert(n[i] == u[j]);
        }
    }
    assert forall|j: int| 0 <= j < m + 1 implies exists|i: int|
        0 <= i < n.len() && #[trigger] n[i] == #[trigger] u[j] by {
        if j < m {
            let i = choose|i: int| 0 <= i < t.len() && #[trigger] t[i] == #[trigger] u[j];
            if i < pos {
                assert(n[i] == u[j]);
            } else {
                assert(n[i + 1] == u[j]);
            }
        } else {
            assert(n[pos] == u[j]);
        }
    }
}

/// The entries of `found` in the order of `entry_before`.
fn sort_entries(found: &Vec<(String, u32)>) -> (r: Vec<(String, u32)>)
    requires
        distinct_codes(entry_views(found@)),
    ensures
        in_order(entry_views(r@)),
        drawn_from(entry_views(r@), entry_views(found@), found@.len() as int),
        covers(entry_views(r@), entry_views(found@), found@.len() as int),
        sum_counts(entry_views(r@)) == sum_counts(entry_views(found@)),
{
    let ghost uv = entry_views(found@);
    let mut sorted: Vec<(String, u32)> = Vec::new();
    let mut m: usize = 0;
    assert(entry_views(sorted@) =~= Seq::empty());
    assert(uv.take(0) =~= Seq::empty());
    proof {
        reveal(in_order);
        reveal(drawn_from);
        reveal(covers);
    }
    while m < found.len()
        invariant
            m <= found@.len(),
            uv == entry_views(found@),
            distinct_codes(uv),
            in_order(entry_views(sorted@)),
            drawn_from(entry_views(sorted@), uv, m as int),
            covers(entry_views(sorted@), uv, m as int),
            sum_counts(entry_views(sorted@)) == sum_counts(uv.take(m as int)),
        decreases found@.len() - m,
    {
        let ghost sv = entry_views(sorted@);
        let x = (found[m].0.clone(), found[m].1);
        let ghost xv = (x.0@, x.1);
        assert(xv == uv[m as int]);
        let mut pos: usize = 0;
        while pos < sorted.len() && entry_precedes(&sorted[pos], &x)
            invariant
                pos <= sorted@.len(),
                sv == entry_views(sorted@),
                xv == (x.0@, x.1),
                forall|q: int| 0 <= q < pos ==> entry_before(#[trigger] sv[q], xv),
            decreases sorted@.len() - pos,
        {
            assert(sv[pos as int] == (sorted@[pos as int].0@, sorted@[pos as int].1));
            pos += 1;
        }
        proof {
            if pos < sv.len() {
                assert(sv[pos as int] == (sorted@[pos as int].0@, sorted@[pos as int].1));
                lemma_drawn_code(sv, uv, m as int, pos as int);
                lemma_before_total(xv, sv[pos as int]);
            }
            lemma_insert_sorted(sv, pos as int, xv);
            lemma_insert_members(sv, pos as int, uv, m as int);
            lemma_sum_insert(sv, pos as int, xv);
            assert(uv.take(m + 1).drop_last() =~= uv.take(m as int));
        }
        sorted.insert(pos, x);
        assert(entry_views(sorted@) =~= sv.insert(pos as int, xv));
        m += 1;
    }
    assert(uv.take(m as int) =~= uv);
    sorted
}

/// The frequency table of the action codes of a log.
pub fn count_actions_by_id(battle_log: &BattleLog) -> (r: Vec<(String, u32)>)
    requires
        battle_log.actions@.len() <= u32::MAX,
    ensures
        is_frequency_table(battle_log.actions@, entry_views(r@)),
        sum_counts(entry_views(r@)) == battle_log.actions@.len(),
{
    let ghost all = battle_log.actions@;
    let found = tally_codes(&battle_log.actions);
    let ghost uv = entry_views(found@);
    let sorted = sort_entries(&found);
    let ghost m = found@.len();
    proof {
        reveal(in_order);
        reveal(drawn_from);
        reveal(covers);
        let t = entry_views(sorted@);
        assert forall|i: int| 0 <= i < t.len() implies (#[trigger] t[i]).1 == occurrences(all, t[i].0)
            && t[i].1 >= 1 by {
            let j = choose|j: int| 0 <= j < m && #[trigger] t[i] == #[trigger] uv[j];
        }
        assert forall|q: int| 0 <= q < all.len() implies exists|i: int|
            0 <= i < t.len() && (#[trigger] t[i]).0 == (#[trigger] all[q]).original_id@ by {
            let j = choose|j: int| 0 <= j < uv.len() && (#[trigger] uv[j]).0 == all[q].original_id@;
            let i = choose|i: int| 0 <= i < t.len() && #[trigger] t[i] == #[trigger] uv[j];
        }
        assert forall|i: int, j: int| 0 <= i < t.len() && 0 <= j < t.len() && i != j implies (
        #[trigger] t[i]).0 != (#[trigger] t[j]).0 by {
            if t[i].0 == t[j].0 {
                lemma_lex_irreflexive(t[i].0);
                let a = choose|a: int| 0 <= a < m && #[trigger] t[i] == #[trigger] uv[a];
                let b = choose|b: int| 0 <= b < m && #[trigger] t[j] == #[trigger] uv[b];
                if i < j {
                    assert(entry_before(t[i], t[j]));
                } else {
                    assert(entry_before(t[j], t[i]));
                }
            }
        }
    }
    sorted
}


/// Summarises a log: its player, the number of actions of each category, and
/// the frequency table of its action codes.
pub fn analyze(battle_log: &BattleLog) -> (r: AnalysisResult)
    requires
        battle_log.actions@.len() <= u32::MAX,
    ensures
        r.player_info.student_id@ == battle_log.player_info.student_id@,
        r.player_info.match_number == battle_log.player_info.match_number,
        r.counts.attack_count == category_count(battle_log.actions@, ActionType::Attack),
        r.counts.shield_count == category_count(battle_log.actions@, ActionType::Shield),
        r.counts.dodge_count == category_count(battle_log.actions@, ActionType::Dodge),
        r.counts.spec_total() == battle_log.actions@.len(),
        is_frequency_table(battle_log.actions@, entry_views(r.action_id_counts@)),
        sum_counts(entry_views(r.action_id_counts@)) == battle_log.actions@.len(),
{
    let counts = count_actions(battle_log);
    let action_id_counts = count_actions_by_id(battle_log);
    AnalysisResult::new(battle_log, counts, action_id_counts)
}

} // verus!
