//! The records of a log, the action taxonomy and the summary values.
use vstd::prelude::*;

use crate::text::str_eq;

verus! {

/// The category of an action.
#[derive(Debug, Clone, Copy, PartialEq, Eq, Structural)]
pub enum ActionType {
    Attack,
    Shield,
    Dodge,
}

/// The category of an action code: "s" is a shield, "nd", "sd" and "ad" are
/// dodges, and every other code, known attack or not, is an attack.
pub open spec fn category_of(code: Seq<char>) -> ActionType {
    if code == "s"@ {
        ActionType::Shield
    } else if code == "nd"@ || code == "sd"@ || code == "ad"@ {
        ActionType::Dodge
    } else {
        ActionType::Attack
    }
}

/// The attack codes with their display names.
pub open spec fn attack_names() -> Seq<(Seq<char>, Seq<char>)> {
    seq![
        ("j1"@, "弱1段"@),
        ("j2"@, "弱2段"@),
        ("st"@, "横強"@),
        ("ut"@, "上強"@),
        ("dt"@, "下強"@),
        ("DA"@, "ダッシュアタック"@),
        ("ss"@, "横スマ"@),
        ("us"@, "上スマ"@),
        ("ds"@, "下スマ"@),
        ("na"@, "空N"@),
        ("fa"@, "空前"@),
        ("ba"@, "空後"@),
        ("ua"@, "空上"@),
        ("da"@, "空下"@),
        ("nb_c"@, "NB（タメ）"@),
        ("nb_a"@, "NB（攻撃）"@),
        ("sb"@, "横B"@),
        ("ub_g"@, "上B（地上）"@),
        ("ub_a"@, "上B（空中）"@),
        ("db_g"@, "下B（地上）"@),
        ("db_a"@, "下B（空中）"@),
        ("g"@, "つかみ"@),
        ("ga"@, "つかみ攻撃"@),
        ("fth"@, "前投げ"@),
        ("bth"@, "後投げ"@),
        ("uth"@, "上投げ"@),
        ("dth"@, "下投げ"@),
        ("fc"@, "前投げ（前派生）"@),
        ("bc"@, "前投げ（後派生）"@),
        ("uc"@, "前投げ（上派生）"@),
        ("dc"@, "前投げ（下派生）"@),
    ]
}

/// The shield codes with their display names.
pub open spec fn shield_names() -> Seq<(Seq<char>, Seq<char>)> {
    seq![
        ("s"@, "シールド"@),
    ]
}

/// The dodge codes with their display names.
pub open spec fn dodge_names() -> Seq<(Seq<char>, Seq<char>)> {
    seq![
        ("nd"@, "その場回避"@),
        ("sd"@, "横回避"@),
        ("ad"@, "空中回避"@),
    ]
}

/// Every named code, in the order in which names are looked up.
pub open spec fn name_table() -> Seq<(Seq<char>, Seq<char>)> {
    attack_names() + shield_names() + dodge_names()
}

/// Entry `i` of `t` is the first one for `code`.
pub open spec fn is_first_entry(t: Seq<(Seq<char>, Seq<char>)>, code: Seq<char>, i: int) -> bool {
    0 <= i < t.len() && t[i].0 == code && forall|j: int| 0 <= j < i ==> t[j].0 != code
}

/// The display name of a code: the name of its first entry in the table, or
/// the code itself when it has none.
pub open spec fn display_name(code: Seq<char>) -> Seq<char> {
    let t = name_table();
    if exists|i: int| is_first_entry(t, code, i) {
        t[choose|i: int| is_first_entry(t, code, i)].1
    } else {
        code
    }
}

fn name_entries() -> (r: Vec<(&'static str, &'static str)>)
    ensures
        r@.len() == name_table().len(),
        forall|i: int| 0 <= i < r@.len() ==> (#[trigger] r@[i]).0@ == name_table()[i].0 && r@[i].1@
            == name_table()[i].1,
{
    let r = vec![
        ("j1", "弱1段"),
        ("j2", "弱2段"),
        ("st", "横強"),
        ("ut", "上強"),
        ("dt", "下強"),
        ("DA", "ダッシュアタック"),
        ("ss", "横スマ"),
        ("us", "上スマ"),
        ("ds", "下スマ"),
        ("na", "空N"),
        ("fa", "空前"),
        ("ba", "空後"),
        ("ua", "空上"),
        ("da", "空下"),
        ("nb_c", "NB（タメ）"),
        ("nb_a", "NB（攻撃）"),
        ("sb", "横B"),
        ("ub_g", "上B（地上）"),
        ("ub_a", "上B（空中）"),
        ("db_g", "下B（地上）"),
        ("db_a", "下B（空中）"),
        ("g", "つかみ"),
        ("ga", "つかみ攻撃"),
        ("fth", "前投げ"),
        ("bth", "後投げ"),
        ("uth", "上投げ"),
        ("dth", "下投げ"),
        ("fc", "前投げ（前派生）"),
        ("bc", "前投げ（後派生）"),
        ("uc", "前投げ（上派生）"),
        ("dc", "前投げ（下派生）"),
        ("s", "シールド"),
        ("nd", "その場回避"),
        ("sd", "横回避"),
        ("ad", "空中回避"),
    ];
    assert(r@.len() == name_table().len());
    r
}

impl ActionType {
    /// The category of an action code.
    pub fn from_action_id(action_id: &str) -> (r: ActionType)
        ensures
            r == category_of(action_id@),
    {
        if str_eq(action_id, "s") {
            ActionType::Shield
        } else if str_eq(action_id, "nd") || str_eq(action_id, "sd") || str_eq(action_id, "ad") {
            ActionType::Dodge
        } else {
            // Known attack codes and unknown codes alike count as attacks.
            ActionType::Attack
        }
    }

    /// The display name of an action code, or the code itself when the
    /// taxonomy does not name it.
    pub fn get_action_name(action_id: &str) -> (r: String)
        ensures
            r@ == display_name(action_id@),
    {
        let table = name_entries();
        let mut i: usize = 0;
        while i < table.len()
            invariant
                i <= table@.len(),
                table@.len() == name_table().len(),
                forall|k: int| 0 <= k < table@.len() ==> (#[trigger] table@[k]).0@ == name_table()[k].0
                    && table@[k].1@ == name_table()[k].1,
                forall|j: int| 0 <= j < i ==> name_table()[j].0 != action_id@,
            decreases table@.len() - i,
        {
            let (code, name) = table[i];
            if str_eq(code, action_id) {
                assert(is_first_entry(name_table(), action_id@, i as int));
                assert(forall|k: int| is_first_entry(name_table(), action_id@, k) ==> k == i);
                return name.to_owned();
            }
            i += 1;
        }
        assert(forall|k: int| !is_first_entry(name_table(), action_id@, k));
        action_id.to_owned()
    }
}


/// When an action happened, in seconds: the floating-point text of the log
/// line, trimmed, exactly as written. Its value is what `str::parse::<f64>`
/// reads from `text`. Two timestamps compare equal when their texts do, so
/// `7.5` and `7.50` differ although their values agree.
#[derive(Debug, Clone, PartialEq, Eq)]
pub struct Timestamp {
    pub text: String,
}

/// One logged action.
#[derive(Debug, Clone)]
pub struct Action {
    pub timestamp: Timestamp,
    pub action_type: ActionType,
    /// The action code as written in the log.
    pub original_id: String,
}

impl Action {
    /// The category of an action is the one of its code.
    pub open spec fn wf(&self) -> bool {
        self.action_type == category_of(self.original_id@)
    }

    pub fn new(timestamp: Timestamp, action_id: String) -> (r: Action)
        ensures
            r.timestamp.text@ == timestamp.text@,
            r.original_id@ == action_id@,
            r.wf(),
    {
        let action_type = ActionType::from_action_id(action_id.as_str());
        Action { timestamp, action_type, original_id: action_id }
    }
}

/// The player a log belongs to.
#[derive(Debug, Clone)]
pub struct PlayerInfo {
    pub student_id: String,
    pub match_number: u32,
}

impl PlayerInfo {
    pub fn new(student_id: String, match_number: u32) -> (r: PlayerInfo)
        ensures
            r.student_id@ == student_id@,
            r.match_number == match_number,
    {
        PlayerInfo { student_id, match_number }
    }
}

/// A whole log: the player and the actions in the order they were written.
#[derive(Debug, Clone)]
pub struct BattleLog {
    pub player_info: PlayerInfo,
    pub actions: Vec<Action>,
}

impl BattleLog {
    /// Every action carries the category of its code.
    pub open spec fn wf(&self) -> bool {
        forall|i: int| 0 <= i < self.actions@.len() ==> (#[trigger] self.actions@[i]).wf()
    }

    pub fn new(player_info: PlayerInfo, actions: Vec<Action>) -> (r: BattleLog)
        ensures
            r.player_info.student_id@ == player_info.student_id@,
            r.player_info.match_number == player_info.match_number,
            r.actions@ == actions@,
    {
        BattleLog { player_info, actions }
    }
}

/// How many actions of each category a log holds.
#[derive(Debug, Clone)]
pub struct ActionCounts {
    pub attack_count: u32,
    pub shield_count: u32,
    pub dodge_count: u32,
}

/// The category that leads, ties going to Attack, then to Shield. Each
/// category's ratio is its count over the same total, so comparing the counts
/// compares the ratios.
pub open spec fn leading_category(attack: int, shield: int, dodge: int) -> ActionType {
    if attack >= shield && attack >= dodge {
        ActionType::Attack
    } else if shield >= dodge {
        ActionType::Shield
    } else {
        ActionType::Dodge
    }
}

impl ActionCounts {
    pub open spec fn spec_total(&self) -> int {
        self.attack_count + self.shield_count + self.dodge_count
    }

    /// All three counts at zero.
    pub fn new() -> (r: ActionCounts)
        ensures
            r.attack_count == 0,
            r.shield_count == 0,
            r.dodge_count == 0,
    {
        ActionCounts { attack_count: 0, shield_count: 0, dodge_count: 0 }
    }

    /// The number of actions counted.
    pub fn total(&self) -> (r: u32)
        requires
            self.spec_total() <= u32::MAX,
        ensures
            r == self.spec_total(),
    {
        self.attack_count + self.shield_count + self.dodge_count
    }

    /// Counts one more action of the given category.
    pub fn increment(&mut self, action_type: &ActionType)
        requires
            match *action_type {
                ActionType::Attack => old(self).attack_count < u32::MAX,
                ActionType::Shield => old(self).shield_count < u32::MAX,
                ActionType::Dodge => old(self).dodge_count < u32::MAX,
            },
        ensures
            final(self).attack_count == old(self).attack_count + if *action_type
                == ActionType::Attack {
                1int
            } else {
                0int
            },
            final(self).shield_count == old(self).shield_count + if *action_type
                == ActionType::Shield {
                1int
            } else {
                0int
            },
            final(self).dodge_count == old(self).dodge_count + if *action_type
                == ActionType::Dodge {
                1int
            } else {
                0int
            },
    {
        match action_type {
            ActionType::Attack => self.attack_count = self.attack_count + 1,
            ActionType::Shield => self.shield_count = self.shield_count + 1,
            ActionType::Dodge => self.dodge_count = self.dodge_count + 1,
        }
    }

    /// The category with the highest ratio; with no action at all, Attack.
    pub fn most_frequent_action(&self) -> (r: ActionType)
        ensures
            r == leading_category(
                self.attack_count as int,
                self.shield_count as int,
                self.dodge_count as int,
            ),
    {
        let attack = self.attack_count;
        let shield = self.shield_count;
        let dodge = self.dodge_count;
        if attack >= shield && attack >= dodge {
            ActionType::Attack
        } else if shield >= dodge {
            ActionType::Shield
        } else {
            ActionType::Dodge
        }
    }
}

/// The summary of a log: its player, the counts per category and, per action
/// code, how often it occurs, most frequent first and equal counts by code.
#[derive(Debug, Clone)]
pub struct AnalysisResult {
    pub player_info: PlayerInfo,
    pub counts: ActionCounts,
    pub action_id_counts: Vec<(String, u32)>,
}

impl AnalysisResult {
    pub fn new(battle_log: &BattleLog, counts: ActionCounts, action_id_counts: Vec<(String, u32)>) -> (r:
        AnalysisResult)
        ensures
            r.player_info.student_id@ == battle_log.player_info.student_id@,
            r.player_info.match_number == battle_log.player_info.match_number,
            r.counts == counts,
            r.action_id_counts@ == action_id_counts@,
    {
        let player_info = PlayerInfo::new(
            battle_log.player_info.student_id.clone(),
            battle_log.player_info.match_number,
        );
        AnalysisResult { player_info, counts, action_id_counts }
    }
}

} // verus!
