//! Reading a log from its lines.
//!
//! Line 1 is `student_id,match_number`; every later line is
//! `timestamp,action_code`, and later lines that are blank once trimmed are
//! skipped.
use vstd::prelude::*;

use crate::error::{ErrorView, SmasherError};
use crate::model::{Action, BattleLog, PlayerInfo, Timestamp};
use crate::text::{
    comma_split, is_float, is_float_text, lemma_comma_split_join, parse_u32, split_pair, trim,
    trimmed, u32_of,
};

verus! {

/// The lines of an input as character sequences.
pub open spec fn line_views(lines: Seq<String>) -> Seq<Seq<char>> {
    lines.map_values(|l: String| l@)
}

/// An action as the text of its timestamp and its code.
pub open spec fn action_view(a: Action) -> (Seq<char>, Seq<char>) {
    (a.timestamp.text@, a.original_id@)
}

pub open spec fn action_views(s: Seq<Action>) -> Seq<(Seq<char>, Seq<char>)> {
    s.map_values(|a: Action| action_view(a))
}

/// What the header line gives: the trimmed student id and the match number.
pub open spec fn header_outcome(line: Seq<char>) -> Result<(Seq<char>, u32), ErrorView> {
    match comma_split(line) {
        None => Err(ErrorView::InvalidFormat(1, line)),
        Some((id, num)) => match u32_of(trimmed(num)) {
            None => Err(ErrorView::Parse(1, num)),
            Some(n) => Ok((trimmed(id), n)),
        },
    }
}

/// What an action line gives, `line` being already trimmed and `no` its line
/// number: the trimmed timestamp text and the trimmed action code.
pub open spec fn action_outcome(line: Seq<char>, no: nat) -> Result<
    (Seq<char>, Seq<char>),
    ErrorView,
> {
    match comma_split(line) {
        None => Err(ErrorView::InvalidFormat(no, line)),
        Some((ts, code)) => if is_float_text(trimmed(ts)) {
            Ok((trimmed(ts), trimmed(code)))
        } else {
            Err(ErrorView::Parse(no, ts))
        },
    }
}

/// The actions that the lines after the header give, in order, or the error
/// of the first line that fails.
pub open spec fn actions_outcome(lines: Seq<Seq<char>>) -> Result<
    Seq<(Seq<char>, Seq<char>)>,
    ErrorView,
>
    decreases lines.len(),
{
    if lines.len() <= 1 {
        Ok(Seq::empty())
    } else {
        match actions_outcome(lines.drop_last()) {
            Err(e) => Err(e),
            Ok(acts) => {
                let t = trimmed(lines.last());
                if t.len() == 0 {
                    Ok(acts)
                } else {
                    match action_outcome(t, lines.len()) {
                        Err(e) => Err(e),
                        Ok(a) => Ok(acts.push(a)),
                    }
                }
            },
        }
    }
}

/// What a whole input gives: the header and at least one action, or the
/// first error.
pub open spec fn log_outcome(lines: Seq<Seq<char>>) -> Result<
    ((Seq<char>, u32), Seq<(Seq<char>, Seq<char>)>),
    ErrorView,
> {
    if lines.len() == 0 {
        Err(ErrorView::Empty("file is empty"@))
    } else {
        match header_outcome(lines[0]) {
            Err(e) => Err(e),
            Ok(h) => match actions_outcome(lines) {
                Err(e) => Err(e),
                Ok(acts) => if acts.len() == 0 {
                    Err(ErrorView::Empty("no action records found"@))
                } else {
                    Ok((h, acts))
                },
            },
        }
    }
}

/// A header `ID,N` whose two fields hold no comma, where `N` trimmed reads as
/// the number `n`, gives the student id `ID` trimmed and the match number `n`.
pub proof fn law_header_fields(id: Seq<char>, num: Seq<char>, n: u32)
    requires
        forall|i: int| 0 <= i < id.len() ==> id[i] != ',',
        forall|i: int| 0 <= i < num.len() ==> num[i] != ',',
        u32_of(trimmed(num)) == Some(n),
    ensures
        header_outcome(id + seq![','] + num) == Ok::<_, ErrorView>((trimmed(id), n)),
{
    lemma_comma_split_join(id, num);
}

/// An action line `T,C` whose two fields hold no comma, where `T` trimmed
/// is floating-point text, gives `T` trimmed as its timestamp, so exactly its
/// value, and `C` trimmed as its code; where `T` trimmed is not, it gives a
/// parse error naming `T`.
pub proof fn law_action_fields(ts: Seq<char>, code: Seq<char>, no: nat)
    requires
        forall|i: int| 0 <= i < ts.len() ==> ts[i] != ',',
        forall|i: int| 0 <= i < code.len() ==> code[i] != ',',
    ensures
        is_float_text(trimmed(ts)) ==> action_outcome(ts + seq![','] + code, no) == Ok::<
            _,
            ErrorView,
        >((trimmed(ts), trimmed(code))),
        !is_float_text(trimmed(ts)) ==> action_outcome(ts + seq![','] + code, no) == Err::<
            (Seq<char>, Seq<char>),
            ErrorView,
        >(ErrorView::Parse(no, ts)),
{
    lemma_comma_split_join(ts, code);
}

/// Reads the header, the first of `lines`.
pub fn parse_player_info(lines: &Vec<String>) -> (r: Result<PlayerInfo, SmasherError>)
    ensures
        lines@.len() == 0 ==> (r matches Err(e) && e@ == ErrorView::Empty("file is empty"@)),
        lines@.len() > 0 ==> match r {
            Ok(p) => header_outcome(lines@[0]@) == Ok::<_, ErrorView>((p.student_id@, p.match_number)),
            Err(e) => header_outcome(lines@[0]@) == Err::<(Seq<char>, u32), ErrorView>(e@),
        },
{
    if lines.len() == 0 {
        return Err(SmasherError::EmptyData("file is empty".to_owned()));
    }
    let line = &lines[0];
    match split_pair(line.as_str()) {
        None => Err(SmasherError::InvalidFormat(1, line.clone())),
        Some((id, num)) => {
            let num_text = trim(num.as_str());
            match parse_u32(num_text.as_str()) {
                None => Err(SmasherError::ParseError(1, num)),
                Some(n) => {
                    let student_id = trim(id.as_str());
                    Ok(PlayerInfo::new(student_id, n))
                },
            }
        },
    }
}

/// Reads one action line, already trimmed, that stands at `line_number`.
pub fn parse_action_line(line: &str, line_number: usize) -> (r: Result<Action, SmasherError>)
    ensures
        match r {
            Ok(a) => action_outcome(line@, line_number as nat) == Ok::<_, ErrorView>(action_view(a)) && a.wf(),
            Err(e) => action_outcome(line@, line_number as nat) == Err::<(Seq<char>, Seq<char>), ErrorView>(e@),
        },
{
    match split_pair(line) {
        None => Err(SmasherError::InvalidFormat(line_number, line.to_owned())),
        Some((ts, code)) => {
            let ts_text = trim(ts.as_str());
            if is_float(ts_text.as_str()) {
                let action_id = trim(code.as_str());
                Ok(Action::new(Timestamp { text: ts_text }, action_id))
            } else {
                Err(SmasherError::ParseError(line_number, ts))
            }
        },
    }
}

/// Reads the action lines, all of `lines` after the first.
pub fn parse_actions(lines: &Vec<String>) -> (r: Result<Vec<Action>, SmasherError>)
    ensures
        match r {
            Ok(acts) => actions_outcome(line_views(lines@)) == Ok::<_, ErrorView>(action_views(acts@)) && forall|
                i: int,
            |
                0 <= i < acts@.len() ==> (#[trigger] acts@[i]).wf(),
            Err(e) => actions_outcome(line_views(lines@)) == Err::<Seq<(Seq<char>, Seq<char>)>, ErrorView>(e@),
        },
{
    let mut actions: Vec<Action> = Vec::new();
    let n = lines.len();
    assert(action_views(actions@) =~= Seq::empty());
    if n <= 1 {
        return Ok(actions);
    }
    let mut i: usize = 1;
    while i < n
        invariant
            1 <= i <= n,
            n == lines@.len(),
            actions_outcome(line_views(lines@).take(i as int)) == Ok::<_, ErrorView>(action_views(actions@)),
            forall|k: int| 0 <= k < actions@.len() ==> (#[trigger] actions@[k]).wf(),
        decreases n - i,
    {
        let ghost prev = line_views(lines@).take(i as int);
        let ghost cur = line_views(lines@).take(i + 1);
        assert(cur.drop_last() =~= prev);
        assert(cur.last() == lines@[i as int]@);
        let trimmed_line = trim(lines[i].as_str());
        if trimmed_line.as_str().unicode_len() != 0 {
            match parse_action_line(trimmed_line.as_str(), i + 1) {
                Err(e) => {
                    assert(line_views(lines@).take(n as int) =~= line_views(lines@));
                    proof {
                        lemma_error_persists(line_views(lines@), i + 1, n as int);
                    }
                    return Err(e);
                },
                Ok(a) => {
                    let ghost old_actions = actions@;
                    actions.push(a);
                    assert(action_views(actions@) =~= action_views(old_actions).push(
                        action_view(a),
                    ));
                },
            }
        }
        i += 1;
    }
    assert(line_views(lines@).take(n as int) =~= line_views(lines@));
    Ok(actions)
}

/// Once a prefix of the lines fails, every longer prefix fails the same way.
proof fn lemma_error_persists(lines: Seq<Seq<char>>, k: int, m: int)
    requires
        1 <= k <= m <= lines.len(),
        actions_outcome(lines.take(k)) is Err,
    ensures
        actions_outcome(lines.take(m)) == actions_outcome(lines.take(k)),
    decreases m - k,
{
    if m > k {
        lemma_error_persists(lines, k, m - 1);
        assert(lines.take(m).drop_last() =~= lines.take(m - 1));
    }
}

/// Reads a whole log from its lines.
pub fn parse_battle_log(lines: &Vec<String>) -> (r: Result<BattleLog, SmasherError>)
    ensures
        match r {
            Ok(log) => log_outcome(line_views(lines@)) == Ok::<_, ErrorView>(
                (
                    (log.player_info.student_id@, log.player_info.match_number),
                    action_views(log.actions@),
                ),
            ) && log.wf(),
            Err(e) => log_outcome(line_views(lines@)) == Err::<((Seq<char>, u32), Seq<(Seq<char>, Seq<char>)>), ErrorView>(e@),
        },
{
    let player_info = match parse_player_info(lines) {
        Ok(p) => p,
        Err(e) => return Err(e),
    };
    let actions = match parse_actions(lines) {
        Ok(a) => a,
        Err(e) => return Err(e),
    };
    if actions.len() == 0 {
        return Err(SmasherError::EmptyData("no action records found".to_owned()));
    }
    Ok(BattleLog::new(player_info, actions))
}

} // verus!
