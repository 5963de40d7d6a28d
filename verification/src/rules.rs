use vstd::prelude::*;
use crate::qi::{spec_decide, QiAction};
use crate::unit::{Hexagram, Qi};

verus! {

pub const HEXAGRAM_ZHUN: i32 = 0;
pub const HEXAGRAM_JIJI: i32 = 1;
pub const HEXAGRAM_TAI: i32 = 2;
pub const HEXAGRAM_PI: i32 = 3;
pub const HEXAGRAM_BO: i32 = 4;

pub const ACTION_NOOP: i32 = 0;
pub const ACTION_REPLICATE: i32 = 1;
pub const ACTION_EMERGENCY_REBUILD: i32 = 2;
pub const ACTION_PROMOTE_TO_HOT: i32 = 3;
pub const ACTION_DEMOTE_TO_COLD: i32 = 4;
pub const ACTION_ARCHIVE: i32 = 5;
pub const ACTION_STABILIZED: i32 = 6;

/// The numeric code of a hexagram in the rule-module calling convention.
pub open spec fn hexagram_code(h: Hexagram) -> i32 {
    match h {
        Hexagram::Zhun => 0,
        Hexagram::Jiji => 1,
        Hexagram::Tai => 2,
        Hexagram::Pi => 3,
        Hexagram::Bo => 4,
        Hexagram::Kun => 5,
    }
}

/// The numeric code of an action in the rule-module calling convention.
pub open spec fn action_code(a: QiAction) -> i32 {
    match a {
        QiAction::Noop => 0,
        QiAction::Replicate => 1,
        QiAction::EmergencyRebuild => 2,
        QiAction::PromoteToHot => 3,
        QiAction::DemoteToCold => 4,
        QiAction::Archive => 5,
        QiAction::Stabilized => 6,
    }
}

/// The default rule module's decision, over the numeric calling convention.
pub open spec fn spec_execute_qi(hexagram: i32, replicas: i32, target: i32) -> i32 {
    if hexagram == HEXAGRAM_BO {
        ACTION_EMERGENCY_REBUILD
    } else if replicas < target {
        ACTION_REPLICATE
    } else if hexagram == HEXAGRAM_ZHUN {
        ACTION_STABILIZED
    } else {
        ACTION_NOOP
    }
}

/// The default Qi rule module (the entry point that a sandboxed rule module
/// exports): hexagram, current replicas and target replicas in, action code out.
pub fn execute_qi(hexagram: i32, replicas: i32, target: i32) -> (action: i32)
    ensures
        action == spec_execute_qi(hexagram, replicas, target),
{
    if hexagram == HEXAGRAM_BO {
        return ACTION_EMERGENCY_REBUILD;
    }
    if replicas < target {
        return ACTION_REPLICATE;
    }
    if hexagram == HEXAGRAM_ZHUN {
        ACTION_STABILIZED
    } else if hexagram == HEXAGRAM_TAI {
        if replicas < target {
            ACTION_REPLICATE
        } else {
            ACTION_NOOP
        }
    } else {
        ACTION_NOOP
    }
}

/// The default rule module and the built-in decision agree: for every Qi
/// state, running the rule module on the state's numeric codes yields the code
/// of the action that `decide` picks.
pub proof fn lemma_rule_module_agrees_with_decide(qi: Qi)
    ensures
        spec_execute_qi(
            hexagram_code(qi.hexagram),
            qi.replica_count as i32,
            qi.target_replicas as i32,
        ) == action_code(spec_decide(qi.hexagram, qi.replica_count, qi.target_replicas)),
{
}

/// In the rule module, every hexagram code but Bo's asks for replication
/// when fewer replicas than the target exist; Bo's asks for a rebuild.
pub proof fn lemma_rule_short_replicas_replicate(hexagram: i32, replicas: i32, target: i32)
    requires
        replicas < target,
    ensures
        hexagram != HEXAGRAM_BO ==> spec_execute_qi(hexagram, replicas, target) == ACTION_REPLICATE,
        hexagram == HEXAGRAM_BO ==> spec_execute_qi(hexagram, replicas, target) == ACTION_EMERGENCY_REBUILD,
{
}

/// In the rule module, with the target reached no code asks for
/// replication: Zhun's is stabilized, Bo's rebuilt, every other left alone.
pub proof fn lemma_rule_enough_replicas_settle(hexagram: i32, replicas: i32, target: i32)
    requires
        replicas >= target,
    ensures
        spec_execute_qi(hexagram, replicas, target) == (if hexagram == HEXAGRAM_BO {
            ACTION_EMERGENCY_REBUILD
        } else if hexagram == HEXAGRAM_ZHUN {
            ACTION_STABILIZED
        } else {
            ACTION_NOOP
        }),
{
}

} // verus!
