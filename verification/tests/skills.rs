use veloren_core::skills::{
    AxeSkill, GeneralSkill, Skill, SkillDefinitions, SkillEntry, SkillGroup, SkillGroupDef,
    SkillGroupType, SkillLevelDef, SkillPrereqDef, SkillSet, ToolKind,
};

/// The parts of the axe tree these tests touch: two skills, neither of
/// which levels, with no prerequisites.
fn axe_defs() -> SkillDefinitions {
    SkillDefinitions {
        groups: vec![SkillGroupDef {
            group: SkillGroupType::Weapon(ToolKind::Axe),
            skills: vec![
                Skill::Axe(AxeSkill::UnlockLeap),
                Skill::Axe(AxeSkill::DsCombo),
            ],
        }],
        max_levels: vec![],
        prerequisites: vec![],
    }
}

#[test]
fn test_refund_skill() {
    let defs = axe_defs();
    let mut skillset = SkillSet::default();
    skillset.unlock_skill_group(SkillGroupType::Weapon(ToolKind::Axe));
    skillset.add_skill_points(SkillGroupType::Weapon(ToolKind::Axe), 1);
    skillset.unlock_skill(Skill::Axe(AxeSkill::UnlockLeap), &defs);

    assert_eq!(skillset.skill_groups[1].available_sp, 0);
    assert_eq!(skillset.skills.len(), 1);
    assert_eq!(
        skillset
            .skills
            .contains_key(&Skill::Axe(AxeSkill::UnlockLeap)),
        true
    );

    skillset.refund_skill(Skill::Axe(AxeSkill::UnlockLeap), &defs);

    assert_eq!(skillset.skill_groups[1].available_sp, 1);
    assert_eq!(skillset.skills.get(&Skill::Axe(AxeSkill::UnlockLeap)), None);
}

#[test]
fn test_unlock_skillgroup() {
    let mut skillset = SkillSet::default();
    skillset.unlock_skill_group(SkillGroupType::Weapon(ToolKind::Axe));

    assert_eq!(skillset.skill_groups.len(), 2);
    assert_eq!(
        skillset.skill_groups[1],
        SkillGroup::new(SkillGroupType::Weapon(ToolKind::Axe))
    );
}

#[test]
fn test_unlock_skill() {
    let defs = axe_defs();
    let mut skillset = SkillSet::default();

    skillset.unlock_skill_group(SkillGroupType::Weapon(ToolKind::Axe));
    skillset.add_skill_points(SkillGroupType::Weapon(ToolKind::Axe), 1);

    assert_eq!(skillset.skill_groups[1].available_sp, 1);
    assert_eq!(skillset.skills.len(), 0);

    // Try unlocking a skill with enough skill points
    skillset.unlock_skill(Skill::Axe(AxeSkill::UnlockLeap), &defs);

    assert_eq!(skillset.skill_groups[1].available_sp, 0);
    assert_eq!(skillset.skills.len(), 1);
    assert_eq!(
        skillset
            .skills
            .contains_key(&Skill::Axe(AxeSkill::UnlockLeap)),
        true
    );

    // Try unlocking a skill without enough skill points
    skillset.unlock_skill(Skill::Axe(AxeSkill::DsCombo), &defs);

    assert_eq!(skillset.skills.len(), 1);
    assert_eq!(skillset.skills.get(&Skill::Axe(AxeSkill::DsCombo)), None);
}

#[test]
fn test_add_skill_points() {
    let mut skillset = SkillSet::default();
    skillset.unlock_skill_group(SkillGroupType::Weapon(ToolKind::Axe));
    skillset.add_skill_points(SkillGroupType::Weapon(ToolKind::Axe), 1);

    assert_eq!(skillset.skill_groups[1].available_sp, 1);
}

/// A tree where the leap skill levels up to three and its damage upgrade
/// requires the leap to be unlocked first.
fn levelled_defs() -> SkillDefinitions {
    SkillDefinitions {
        groups: vec![SkillGroupDef {
            group: SkillGroupType::Weapon(ToolKind::Axe),
            skills: vec![
                Skill::Axe(AxeSkill::UnlockLeap),
                Skill::Axe(AxeSkill::LDamage),
            ],
        }],
        max_levels: vec![SkillLevelDef {
            skill: Skill::Axe(AxeSkill::LDamage),
            max_level: Some(3),
        }],
        prerequisites: vec![SkillPrereqDef {
            skill: Skill::Axe(AxeSkill::LDamage),
            prerequisites: vec![SkillEntry {
                skill: Skill::Axe(AxeSkill::UnlockLeap),
                level: None,
            }],
        }],
    }
}

#[test]
fn skill_levels_cost_their_level() {
    let defs = levelled_defs();
    let mut skillset = SkillSet::default();
    skillset.unlock_skill_group(SkillGroupType::Weapon(ToolKind::Axe));
    skillset.add_skill_points(SkillGroupType::Weapon(ToolKind::Axe), 10);

    // The prerequisite is not met yet: nothing happens.
    skillset.unlock_skill(Skill::Axe(AxeSkill::LDamage), &defs);
    assert_eq!(skillset.skills.len(), 0);
    assert!(!skillset.prerequisites_met(Skill::Axe(AxeSkill::LDamage), &defs));

    skillset.unlock_skill(Skill::Axe(AxeSkill::UnlockLeap), &defs);
    assert!(skillset.prerequisites_met(Skill::Axe(AxeSkill::LDamage), &defs));
    assert_eq!(skillset.get_available_sp(SkillGroupType::Weapon(ToolKind::Axe)), 9);

    // Levels one, two, three cost one, two, three points.
    assert_eq!(skillset.skill_point_cost(Skill::Axe(AxeSkill::LDamage), &defs), 1);
    skillset.unlock_skill(Skill::Axe(AxeSkill::LDamage), &defs);
    assert_eq!(skillset.skills.get(&Skill::Axe(AxeSkill::LDamage)), Some(Some(1)));
    assert_eq!(skillset.skill_point_cost(Skill::Axe(AxeSkill::LDamage), &defs), 2);
    skillset.unlock_skill(Skill::Axe(AxeSkill::LDamage), &defs);
    skillset.unlock_skill(Skill::Axe(AxeSkill::LDamage), &defs);
    assert_eq!(skillset.skills.get(&Skill::Axe(AxeSkill::LDamage)), Some(Some(3)));
    assert_eq!(skillset.get_available_sp(SkillGroupType::Weapon(ToolKind::Axe)), 3);

    // At the maximum level a further unlock does nothing.
    skillset.unlock_skill(Skill::Axe(AxeSkill::LDamage), &defs);
    assert_eq!(skillset.skills.get(&Skill::Axe(AxeSkill::LDamage)), Some(Some(3)));
    assert_eq!(skillset.get_available_sp(SkillGroupType::Weapon(ToolKind::Axe)), 3);

    // Refunding returns the cost of the level that is dropped.
    skillset.refund_skill(Skill::Axe(AxeSkill::LDamage), &defs);
    assert_eq!(skillset.skills.get(&Skill::Axe(AxeSkill::LDamage)), Some(Some(2)));
    assert_eq!(skillset.get_available_sp(SkillGroupType::Weapon(ToolKind::Axe)), 6);
}

#[test]
fn max_skill_points_sum_every_level() {
    let defs = levelled_defs();
    // UnlockLeap costs 1; LDamage costs 1 + 2 + 3 = 6.
    assert_eq!(SkillGroupType::Weapon(ToolKind::Axe).get_max_skill_points(&defs), 7);
    // A group the definitions lack is worth nothing.
    assert_eq!(SkillGroupType::General.get_max_skill_points(&defs), 0);
}

#[test]
fn sufficient_skill_points_checks_group_and_cost() {
    let defs = axe_defs();
    let mut skillset = SkillSet::default();
    // No axe group yet: not sufficient.
    assert!(!skillset.sufficient_skill_points(Skill::Axe(AxeSkill::UnlockLeap), &defs));
    skillset.unlock_skill_group(SkillGroupType::Weapon(ToolKind::Axe));
    assert!(!skillset.sufficient_skill_points(Skill::Axe(AxeSkill::UnlockLeap), &defs));
    skillset.add_skill_points(SkillGroupType::Weapon(ToolKind::Axe), 1);
    assert!(skillset.sufficient_skill_points(Skill::Axe(AxeSkill::UnlockLeap), &defs));
    // A skill outside every group is never sufficient.
    assert!(!skillset.sufficient_skill_points(Skill::Axe(AxeSkill::SDamage), &defs));
}

#[test]
fn experience_changes_wrap_like_the_counter() {
    let mut skillset = SkillSet::default();
    skillset.change_experience(SkillGroupType::General, 10);
    assert_eq!(skillset.get_experience(SkillGroupType::General), 10);
    skillset.change_experience(SkillGroupType::General, -20);
    // 10 - 20 wraps modulo 2^16.
    assert_eq!(skillset.get_experience(SkillGroupType::General), 65526);
    skillset.change_experience(SkillGroupType::General, 20);
    assert_eq!(skillset.get_experience(SkillGroupType::General), 10);
    // A group the player lacks is left alone.
    skillset.change_experience(SkillGroupType::Weapon(ToolKind::Bow), 100);
    assert_eq!(skillset.get_experience(SkillGroupType::Weapon(ToolKind::Bow)), 0);
}

#[test]
fn skill_points_saturate() {
    let mut skillset = SkillSet::default();
    skillset.add_skill_points(SkillGroupType::General, 65535);
    skillset.add_skill_points(SkillGroupType::General, 10);
    assert_eq!(skillset.get_available_sp(SkillGroupType::General), 65535);
    assert_eq!(skillset.get_earned_sp(SkillGroupType::General), 65535);
}

#[test]
fn has_available_sp_needs_room_in_the_tree() {
    let defs = axe_defs();
    let mut skillset = SkillSet::default();
    assert!(!skillset.has_available_sp(&defs));
    skillset.unlock_skill_group(SkillGroupType::Weapon(ToolKind::Axe));
    skillset.add_skill_points(SkillGroupType::Weapon(ToolKind::Axe), 1);
    assert!(skillset.has_available_sp(&defs));
    skillset.unlock_skill(Skill::Axe(AxeSkill::UnlockLeap), &defs);
    assert!(!skillset.has_available_sp(&defs));
}

#[test]
fn unlocking_a_group_skill_opens_the_group() {
    let defs = SkillDefinitions {
        groups: vec![SkillGroupDef {
            group: SkillGroupType::General,
            skills: vec![Skill::UnlockGroup(SkillGroupType::Weapon(ToolKind::Sword))],
        }],
        max_levels: vec![],
        prerequisites: vec![],
    };
    let mut skillset = SkillSet::default();
    skillset.add_skill_points(SkillGroupType::General, 1);
    assert!(!skillset.contains_skill_group(SkillGroupType::Weapon(ToolKind::Sword)));
    skillset.unlock_skill(Skill::UnlockGroup(SkillGroupType::Weapon(ToolKind::Sword)), &defs);
    assert!(skillset.contains_skill_group(SkillGroupType::Weapon(ToolKind::Sword)));
    assert_eq!(skillset.get_available_sp(SkillGroupType::General), 0);
}

#[test]
fn general_skills_raise_their_flags() {
    let defs = SkillDefinitions {
        groups: vec![SkillGroupDef {
            group: SkillGroupType::General,
            skills: vec![
                Skill::General(GeneralSkill::HealthIncrease),
                Skill::General(GeneralSkill::EnergyIncrease),
            ],
        }],
        max_levels: vec![],
        prerequisites: vec![],
    };
    let mut skillset = SkillSet::default();
    skillset.add_skill_points(SkillGroupType::General, 2);
    assert!(!skillset.modify_health && !skillset.modify_energy);
    skillset.unlock_skill(Skill::General(GeneralSkill::HealthIncrease), &defs);
    assert!(skillset.modify_health && !skillset.modify_energy);
    skillset.unlock_skill(Skill::General(GeneralSkill::EnergyIncrease), &defs);
    assert!(skillset.modify_health && skillset.modify_energy);
}

#[test]
fn prerequisite_skills_include_the_level_below() {
    let defs = levelled_defs();
    let reqs = Skill::Axe(AxeSkill::LDamage).prerequisite_skills(Some(2), &defs);
    // Level two presupposes level one of the same skill, plus the table's
    // own entry.
    assert!(reqs.contains(&SkillEntry {
        skill: Skill::Axe(AxeSkill::LDamage),
        level: Some(1),
    }));
    assert!(reqs.contains(&SkillEntry {
        skill: Skill::Axe(AxeSkill::UnlockLeap),
        level: None,
    }));
    assert_eq!(reqs.len(), 2);
}
