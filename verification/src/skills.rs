//! Skills: what a player can unlock, grouped into skill trees with
//! independent experience and skill points.
//!
//! Which skills form each group, how far each skill levels and what it
//! presupposes are data, not code: the game ships them as asset tables.
//! Here they arrive as a plain [`SkillDefinitions`] value, so every rule
//! that reads them is verified for every table the game could load.

use vstd::prelude::*;

verus! {

/// The kind of tool a weapon skill tree belongs to.
#[derive(Clone, Copy, Debug, Hash, PartialEq, Eq, Structural)]
pub enum ToolKind {
    Sword,
    Axe,
    Hammer,
    Bow,
    Staff,
    Sceptre,
}

/// A skill a player can unlock: an active ability, a passive effect, or the
/// unlocking of a whole further group.  What a skill does is the business
/// of dedicated game systems; here it is an identifier.
#[derive(Clone, Copy, Debug, Hash, PartialEq, Eq, Structural)]
pub enum Skill {
    General(GeneralSkill),
    Sword(SwordSkill),
    Axe(AxeSkill),
    Hammer(HammerSkill),
    Bow(BowSkill),
    Staff(StaffSkill),
    Sceptre(SceptreSkill),
    UnlockGroup(SkillGroupType),
    Roll(RollSkill),
}

#[derive(Clone, Copy, Debug, Hash, PartialEq, Eq, Structural)]
pub enum SwordSkill {
    InterruptingAttacks,
    TsCombo,
    TsDamage,
    TsRegen,
    TsSpeed,
    DCost,
    DDrain,
    DDamage,
    DScaling,
    DSpeed,
    DInfinite,
    UnlockSpin,
    SDamage,
    SSpeed,
    SCost,
    SSpins,
}

#[derive(Clone, Copy, Debug, Hash, PartialEq, Eq, Structural)]
pub enum AxeSkill {
    DsCombo,
    DsDamage,
    DsSpeed,
    DsRegen,
    SInfinite,
    SHelicopter,
    SDamage,
    SSpeed,
    SCost,
    UnlockLeap,
    LDamage,
    LKnockback,
    LCost,
    LDistance,
}

#[derive(Clone, Copy, Debug, Hash, PartialEq, Eq, Structural)]
pub enum HammerSkill {
    SsKnockback,
    SsDamage,
    SsSpeed,
    SsRegen,
    CDamage,
    CKnockback,
    CDrain,
    CSpeed,
    UnlockLeap,
    LDamage,
    LCost,
    LDistance,
    LKnockback,
    LRange,
}

#[derive(Clone, Copy, Debug, Hash, PartialEq, Eq, Structural)]
pub enum BowSkill {
    ProjSpeed,
    BDamage,
    BRegen,
    CDamage,
    CKnockback,
    CProjSpeed,
    CDrain,
    CSpeed,
    CMove,
    UnlockRepeater,
    RDamage,
    RGlide,
    RArrows,
    RCost,
}

#[derive(Clone, Copy, Debug, Hash, PartialEq, Eq, Structural)]
pub enum StaffSkill {
    BExplosion,
    BDamage,
    BRegen,
    BRadius,
    FDamage,
    FRange,
    FDrain,
    FVelocity,
    UnlockShockwave,
    SDamage,
    SKnockback,
    SRange,
    SCost,
}

#[derive(Clone, Copy, Debug, Hash, PartialEq, Eq, Structural)]
pub enum SceptreSkill {
    BHeal,
    BDamage,
    BRange,
    BLifesteal,
    BRegen,
    BCost,
    PHeal,
    PDamage,
    PRadius,
    PCost,
    PProjSpeed,
}

#[derive(Clone, Copy, Debug, Hash, PartialEq, Eq, Structural)]
pub enum GeneralSkill {
    HealthIncrease,
    EnergyIncrease,
}

#[derive(Clone, Copy, Debug, Hash, PartialEq, Eq, Structural)]
pub enum RollSkill {
    ImmuneMelee,
    Cost,
    Strength,
    Duration,
}

/// A skill tree: the general tree every player has, or one weapon tree per
/// tool kind.
#[derive(Clone, Copy, Debug, Hash, PartialEq, Eq, Structural)]
pub enum SkillGroupType {
    General,
    Weapon(ToolKind),
}

/// The level of an unlocked skill: `None` for a skill that does not level.
pub type Level = Option<u16>;

/// One `skill is at level` pair, as stored in a skill map or required as a
/// prerequisite.
#[derive(Clone, Copy, Debug, Hash, PartialEq, Eq, Structural)]
pub struct SkillEntry {
    pub skill: Skill,
    pub level: Level,
}

/// One skill group's membership: the skills that belong to the tree.
#[derive(Clone, Debug, PartialEq, Eq)]
pub struct SkillGroupDef {
    pub group: SkillGroupType,
    pub skills: Vec<Skill>,
}

/// The highest level one skill can reach; `None` for a skill that does not
/// level.
#[derive(Clone, Copy, Debug, PartialEq, Eq, Structural)]
pub struct SkillLevelDef {
    pub skill: Skill,
    pub max_level: Level,
}

/// The direct prerequisites of one skill.
#[derive(Clone, Debug, PartialEq, Eq)]
pub struct SkillPrereqDef {
    pub skill: Skill,
    pub prerequisites: Vec<SkillEntry>,
}

/// The three asset tables that drive the skill rules: group membership,
/// maximum levels and prerequisites.  The game loads them from its asset
/// files; every function here takes them as a value and is verified for
/// all of them.
#[derive(Clone, Debug, PartialEq, Eq)]
pub struct SkillDefinitions {
    pub groups: Vec<SkillGroupDef>,
    pub max_levels: Vec<SkillLevelDef>,
    pub prerequisites: Vec<SkillPrereqDef>,
}

/// The group that first lists `skill` among its members, if any does.
pub open spec fn spec_group_of(groups: Seq<SkillGroupDef>, skill: Skill) -> Option<SkillGroupType>
    decreases groups.len(),
{
    if groups.len() == 0 {
        None
    } else if groups.first().skills@.contains(skill) {
        Some(groups.first().group)
    } else {
        spec_group_of(groups.drop_first(), skill)
    }
}

/// The member list of the first definition of `group`, if there is one.
pub open spec fn spec_skills_of_group(groups: Seq<SkillGroupDef>, group: SkillGroupType) -> Option<
    Seq<Skill>,
>
    decreases groups.len(),
{
    if groups.len() == 0 {
        None
    } else if groups.first().group == group {
        Some(groups.first().skills@)
    } else {
        spec_skills_of_group(groups.drop_first(), group)
    }
}

/// The raw maximum-level table entry for `skill`, if there is one.
pub open spec fn spec_max_level_entry(levels: Seq<SkillLevelDef>, skill: Skill) -> Option<Level>
    decreases levels.len(),
{
    if levels.len() == 0 {
        None
    } else if levels.first().skill == skill {
        Some(levels.first().max_level)
    } else {
        spec_max_level_entry(levels.drop_first(), skill)
    }
}

/// The maximum level of `skill`: the table entry, flattened, so that a
/// skill listed without a level counts the same as one not listed.
pub open spec fn spec_max_level(levels: Seq<SkillLevelDef>, skill: Skill) -> Option<u16> {
    match spec_max_level_entry(levels, skill) {
        Some(l) => l,
        None => None,
    }
}

/// The prerequisite table row for `skill`, if there is one.
pub open spec fn spec_prereqs_of(prereqs: Seq<SkillPrereqDef>, skill: Skill) -> Option<
    Seq<SkillEntry>,
>
    decreases prereqs.len(),
{
    if prereqs.len() == 0 {
        None
    } else if prereqs.first().skill == skill {
        Some(prereqs.first().prerequisites@)
    } else {
        spec_prereqs_of(prereqs.drop_first(), skill)
    }
}

/// Whether some entry of the list names `skill`.
pub open spec fn spec_entries_contain(entries: Seq<SkillEntry>, skill: Skill) -> bool {
    exists|i: int| 0 <= i < entries.len() && entries[i].skill == skill
}

/// The cost in skill points of unlocking one level of a skill: the level
/// itself, or one for a skill that does not level.
pub open spec fn spec_skill_cost(level: Level) -> u16 {
    match level {
        Some(l) => l,
        None => 1,
    }
}

/// Whether an unlocked level `a` satisfies a required level `b`, ordering
/// levels as `None` below every `Some` and `Some` levels numerically.
pub open spec fn spec_level_ge(a: Level, b: Level) -> bool {
    match b {
        None => true,
        Some(lb) => match a {
            None => false,
            Some(la) => la >= lb,
        },
    }
}

/// Whether the member list `skills` contains `skill`.
fn vec_contains_skill(skills: &Vec<Skill>, skill: Skill) -> (r: bool)
    ensures
        r == skills@.contains(skill),
{
    let mut i: usize = 0;
    while i < skills.len()
        invariant
            i <= skills@.len(),
            forall|j: int| 0 <= j < i ==> skills@[j] != skill,
        decreases skills@.len() - i,
    {
        if skills[i] == skill {
            return true;
        }
        i = i + 1;
    }
    false
}

impl Skill {
    /// The cost in skill points of unlocking this skill at `level`.
    pub fn skill_cost(self, level: Level) -> (r: u16)
        ensures
            r == spec_skill_cost(level),
    {
        match level {
            Some(l) => l,
            None => 1,
        }
    }

    /// The maximum level this skill can reach under the given definitions;
    /// `None` for a skill that does not level.
    pub fn get_max_level(self, defs: &SkillDefinitions) -> (r: Option<u16>)
        ensures
            r == spec_max_level(defs.max_levels@, self),
    {
        let n = defs.max_levels.len();
        let mut i: usize = 0;
        proof {
            assert(defs.max_levels@.skip(0) =~= defs.max_levels@);
        }
        while i < n
            invariant
                i <= n == defs.max_levels@.len(),
                spec_max_level_entry(defs.max_levels@, self) == spec_max_level_entry(
                    defs.max_levels@.skip(i as int),
                    self,
                ),
            decreases n - i,
        {
            proof {
                assert(defs.max_levels@.skip(i as int).first() == defs.max_levels@[i as int]);
                assert(defs.max_levels@.skip(i as int).drop_first() =~= defs.max_levels@.skip(
                    i + 1,
                ));
            }
            if defs.max_levels[i].skill == self {
                return defs.max_levels[i].max_level;
            }
            i = i + 1;
        }
        None
    }

    /// The skill group this skill belongs to under the given definitions:
    /// the first group whose member list contains it.
    pub fn get_skill_group_type(self, defs: &SkillDefinitions) -> (r: Option<SkillGroupType>)
        ensures
            r == spec_group_of(defs.groups@, self),
    {
        let n = defs.groups.len();
        let mut i: usize = 0;
        proof {
            assert(defs.groups@.skip(0) =~= defs.groups@);
        }
        while i < n
            invariant
                i <= n == defs.groups@.len(),
                spec_group_of(defs.groups@, self) == spec_group_of(
                    defs.groups@.skip(i as int),
                    self,
                ),
            decreases n - i,
        {
            proof {
                assert(defs.groups@.skip(i as int).first() == defs.groups@[i as int]);
                assert(defs.groups@.skip(i as int).drop_first() =~= defs.groups@.skip(i + 1));
            }
            if vec_contains_skill(&defs.groups[i].skills, self) {
                return Some(defs.groups[i].group);
            }
            i = i + 1;
        }
        None
    }
}

/// The prerequisites of unlocking `skill` at `level`: the skill itself one
/// level lower when `level` is above one, together with the table's own
/// entries; a table entry for the skill itself takes precedence.
pub open spec fn spec_prerequisite_skills(
    prereqs: Seq<SkillPrereqDef>,
    skill: Skill,
    level: Level,
) -> Seq<SkillEntry> {
    let table = match spec_prereqs_of(prereqs, skill) {
        Some(t) => t,
        None => Seq::empty(),
    };
    let lower = match level {
        Some(l) => if l > 1 && !spec_entries_contain(table, skill) {
            seq![SkillEntry { skill, level: Some((l - 1) as u16) }]
        } else {
            Seq::empty()
        },
        None => Seq::empty(),
    };
    lower + table
}

/// Whether some entry of the list names `skill`.
fn vec_entries_contain(entries: &Vec<SkillEntry>, skill: Skill) -> (r: bool)
    ensures
        r == spec_entries_contain(entries@, skill),
{
    let mut i: usize = 0;
    while i < entries.len()
        invariant
            i <= entries@.len(),
            forall|j: int| 0 <= j < i ==> entries@[j].skill != skill,
        decreases entries@.len() - i,
    {
        if entries[i].skill == skill {
            return true;
        }
        i = i + 1;
    }
    false
}

/// The index of the prerequisite row for `skill`, if the table has one.
fn find_prereq_row(defs: &SkillDefinitions, skill: Skill) -> (r: Option<usize>)
    ensures
        match r {
            Some(idx) => idx < defs.prerequisites@.len() && spec_prereqs_of(
                defs.prerequisites@,
                skill,
            ) == Some(defs.prerequisites@[idx as int].prerequisites@),
            None => spec_prereqs_of(defs.prerequisites@, skill) is None,
        },
{
    let n = defs.prerequisites.len();
    let mut i: usize = 0;
    proof {
        assert(defs.prerequisites@.skip(0) =~= defs.prerequisites@);
    }
    while i < n
        invariant
            i <= n == defs.prerequisites@.len(),
            spec_prereqs_of(defs.prerequisites@, skill) == spec_prereqs_of(
                defs.prerequisites@.skip(i as int),
                skill,
            ),
        decreases n - i,
    {
        proof {
            assert(defs.prerequisites@.skip(i as int).first() == defs.prerequisites@[i as int]);
            assert(defs.prerequisites@.skip(i as int).drop_first() =~= defs.prerequisites@.skip(
                i + 1,
            ));
        }
        if defs.prerequisites[i].skill == skill {
            return Some(i);
        }
        i = i + 1;
    }
    None
}

impl Skill {
    /// The direct prerequisite entries for unlocking this skill at `level`,
    /// exactly as [`spec_prerequisite_skills`] lists them.
    pub fn prerequisite_skills(self, level: Level, defs: &SkillDefinitions) -> (r: Vec<SkillEntry>)
        ensures
            r@ == spec_prerequisite_skills(defs.prerequisites@, self, level),
    {
        let row = find_prereq_row(defs, self);
        let ghost table = match spec_prereqs_of(defs.prerequisites@, self) {
            Some(t) => t,
            None => Seq::<SkillEntry>::empty(),
        };
        let mut out: Vec<SkillEntry> = Vec::new();
        let table_has_self = match row {
            Some(idx) => vec_entries_contain(&defs.prerequisites[idx].prerequisites, self),
            None => false,
        };
        match level {
            Some(l) => {
                if l > 1 && !table_has_self {
                    out.push(SkillEntry { skill: self, level: Some(l - 1) });
                }
            },
            None => {},
        }
        let ghost lower = out@;
        proof {
            assert(lower == match level {
                Some(l) => if l > 1 && !spec_entries_contain(table, self) {
                    seq![SkillEntry { skill: self, level: Some((l - 1) as u16) }]
                } else {
                    Seq::<SkillEntry>::empty()
                },
                None => Seq::<SkillEntry>::empty(),
            });
        }
        match row {
            Some(idx) => {
                let src = &defs.prerequisites[idx].prerequisites;
                let mut j: usize = 0;
                while j < src.len()
                    invariant
                        j <= src@.len(),
                        src@ == table,
                        out@ == lower + table.take(j as int),
                    decreases src@.len() - j,
                {
                    out.push(src[j]);
                    j = j + 1;
                    proof {
                        assert(out@ =~= lower + table.take(j as int));
                    }
                }
                proof {
                    assert(table.take(table.len() as int) =~= table);
                }
            },
            None => {
                proof {
                    assert(out@ =~= lower + table);
                }
            },
        }
        out
    }
}

/// A group of skills that a player has unlocked, with its own experience
/// and skill points.
#[derive(Clone, Debug, Eq, Hash, PartialEq, Structural)]
pub struct SkillGroup {
    pub skill_group_type: SkillGroupType,
    pub exp: u16,
    pub available_sp: u16,
    pub earned_sp: u16,
}

impl SkillGroup {
    /// A freshly unlocked group: no experience, no skill points.
    pub fn new(skill_group_type: SkillGroupType) -> (r: SkillGroup)
        ensures
            r == (SkillGroup { skill_group_type, exp: 0u16, available_sp: 0u16, earned_sp: 0u16 }),
    {
        SkillGroup { skill_group_type, exp: 0, available_sp: 0, earned_sp: 0 }
    }
}

/// The finite map that a list of entries stands for: later entries win,
/// though a well-formed list never repeats a key.
pub open spec fn spec_entries_map(entries: Seq<SkillEntry>) -> Map<Skill, Level>
    decreases entries.len(),
{
    if entries.len() == 0 {
        Map::empty()
    } else {
        spec_entries_map(entries.drop_last()).insert(entries.last().skill, entries.last().level)
    }
}

/// No key occurs twice in the list.
pub open spec fn spec_entries_unique(entries: Seq<SkillEntry>) -> bool {
    forall|i: int, j: int| 0 <= i < j < entries.len() ==> entries[i].skill != entries[j].skill
}

proof fn lemma_entries_map_dom(entries: Seq<SkillEntry>)
    ensures
        forall|k: Skill|
            spec_entries_map(entries).dom().contains(k) == spec_entries_contain(entries, k),
        spec_entries_map(entries).dom().finite(),
    decreases entries.len(),
{
    if entries.len() == 0 {
        assert forall|k: Skill|
            spec_entries_map(entries).dom().contains(k) == spec_entries_contain(
                entries,
                k,
            ) by {
            assert(!spec_entries_contain(entries, k));
        }
    } else {
        let prefix = entries.drop_last();
        lemma_entries_map_dom(prefix);
        assert forall|k: Skill|
            spec_entries_map(entries).dom().contains(k) == spec_entries_contain(
                entries,
                k,
            ) by {
            if spec_entries_map(entries).dom().contains(k) {
                if k == entries.last().skill {
                    assert(entries[entries.len() - 1].skill == k);
                } else {
                    assert(spec_entries_contain(prefix, k));
                    let i = choose|i: int| 0 <= i < prefix.len() && prefix[i].skill == k;
                    assert(entries[i].skill == k);
                }
            }
            if spec_entries_contain(entries, k) {
                let i = choose|i: int| 0 <= i < entries.len() && entries[i].skill == k;
                if i == entries.len() - 1 {
                    assert(spec_entries_map(entries).dom().contains(k));
                } else {
                    assert(prefix[i].skill == k);
                    assert(spec_entries_contain(prefix, k));
                }
            }
        }
    }
}

proof fn lemma_entries_map_get(entries: Seq<SkillEntry>, i: int)
    requires
        spec_entries_unique(entries),
        0 <= i < entries.len(),
    ensures
        spec_entries_map(entries).dom().contains(entries[i].skill),
        spec_entries_map(entries)[entries[i].skill] == entries[i].level,
    decreases entries.len(),
{
    let prefix = entries.drop_last();
    if i == entries.len() - 1 {
    } else {
        assert(entries[i].skill != entries.last().skill);
        assert(prefix[i] == entries[i]);
        lemma_entries_map_get(prefix, i);
    }
}

proof fn lemma_entries_map_len(entries: Seq<SkillEntry>)
    requires
        spec_entries_unique(entries),
    ensures
        spec_entries_map(entries).dom().len() == entries.len(),
    decreases entries.len(),
{
    broadcast use vstd::set::group_set_axioms;

    if entries.len() == 0 {
    } else {
        let prefix = entries.drop_last();
        lemma_entries_map_len(prefix);
        lemma_entries_map_dom(prefix);
        if spec_entries_contain(prefix, entries.last().skill) {
            let i = choose|i: int|
                0 <= i < prefix.len() && prefix[i].skill == entries.last().skill;
            assert(entries[i].skill == entries[entries.len() - 1].skill);
            assert(false);
        }
        assert(!spec_entries_map(prefix).dom().contains(entries.last().skill));
    }
}

proof fn lemma_entries_map_update(entries: Seq<SkillEntry>, i: int, v: Level)
    requires
        spec_entries_unique(entries),
        0 <= i < entries.len(),
    ensures
        spec_entries_map(entries.update(i, SkillEntry { skill: entries[i].skill, level: v }))
            == spec_entries_map(entries).insert(entries[i].skill, v),
        spec_entries_unique(
            entries.update(i, SkillEntry { skill: entries[i].skill, level: v }),
        ),
    decreases entries.len(),
{
    let k = entries[i].skill;
    let e = SkillEntry { skill: k, level: v };
    let updated = entries.update(i, e);
    assert(spec_entries_unique(updated));
    let prefix = entries.drop_last();
    if i == entries.len() - 1 {
        assert(updated.drop_last() =~= prefix);
        assert(updated.last() == e);
        assert(spec_entries_map(updated) == spec_entries_map(prefix).insert(k, v));
        assert(spec_entries_map(prefix).insert(k, entries.last().level).insert(k, v)
            =~= spec_entries_map(prefix).insert(k, v));
    } else {
        assert(k != entries.last().skill);
        assert(updated.drop_last() =~= prefix.update(i, e));
        assert(prefix[i] == entries[i]);
        lemma_entries_map_update(prefix, i, v);
        assert(updated.last() == entries.last());
        assert(spec_entries_map(updated) == spec_entries_map(prefix).insert(k, v).insert(
            entries.last().skill,
            entries.last().level,
        ));
        assert(spec_entries_map(prefix).insert(k, v).insert(
            entries.last().skill,
            entries.last().level,
        ) =~= spec_entries_map(prefix).insert(entries.last().skill, entries.last().level).insert(
            k,
            v,
        ));
    }
}

proof fn lemma_entries_map_remove(entries: Seq<SkillEntry>, i: int)
    requires
        spec_entries_unique(entries),
        0 <= i < entries.len(),
    ensures
        spec_entries_map(entries.remove(i)) == spec_entries_map(entries).remove(entries[i].skill),
        spec_entries_unique(entries.remove(i)),
    decreases entries.len(),
{
    let k = entries[i].skill;
    let removed = entries.remove(i);
    assert forall|a: int, b: int| 0 <= a < b < removed.len() implies removed[a].skill
        != removed[b].skill by {
        let a0 = if a < i {
            a
        } else {
            a + 1
        };
        let b0 = if b < i {
            b
        } else {
            b + 1
        };
        assert(removed[a] == entries[a0] && removed[b] == entries[b0]);
    }
    let prefix = entries.drop_last();
    lemma_entries_map_dom(prefix);
    if i == entries.len() - 1 {
        assert(removed =~= prefix);
        if spec_entries_contain(prefix, k) {
            let j = choose|j: int| 0 <= j < prefix.len() && prefix[j].skill == k;
            assert(entries[j].skill == entries[entries.len() - 1].skill);
            assert(false);
        }
        assert(!spec_entries_map(prefix).dom().contains(k));
        assert(spec_entries_map(prefix).insert(k, entries.last().level).remove(k)
            =~= spec_entries_map(prefix));
    } else {
        assert(k != entries.last().skill);
        assert(removed.drop_last() =~= prefix.remove(i));
        assert(removed.last() == entries.last());
        assert(prefix[i] == entries[i]);
        lemma_entries_map_remove(prefix, i);
        assert(spec_entries_map(removed) == spec_entries_map(prefix).remove(k).insert(
            entries.last().skill,
            entries.last().level,
        ));
        assert(spec_entries_map(prefix).remove(k).insert(
            entries.last().skill,
            entries.last().level,
        ) =~= spec_entries_map(prefix).insert(entries.last().skill, entries.last().level).remove(
            k,
        ));
    }
}

/// The set of skills a player has unlocked, each at its level.  Behaves as
/// the finite map its view names; the entry list never repeats a key.
#[derive(Clone, Debug, PartialEq)]
pub struct SkillMap {
    entries: Vec<SkillEntry>,
}

impl View for SkillMap {
    type V = Map<Skill, Level>;

    closed spec fn view(&self) -> Map<Skill, Level> {
        spec_entries_map(self.entries@)
    }
}

impl SkillMap {
    /// The entry list behind the map never repeats a skill.
    pub closed spec fn wf(&self) -> bool {
        spec_entries_unique(self.entries@)
    }

    /// An empty skill map.
    pub fn new() -> (r: SkillMap)
        ensures
            r@ == Map::<Skill, Level>::empty(),
            r.wf(),
    {
        SkillMap { entries: Vec::new() }
    }

    /// How many skills are unlocked.
    pub fn len(&self) -> (r: usize)
        requires
            self.wf(),
        ensures
            r == self@.len(),
    {
        proof {
            lemma_entries_map_len(self.entries@);
        }
        self.entries.len()
    }

    /// Whether `skill` is unlocked.
    pub fn contains_key(&self, skill: &Skill) -> (r: bool)
        ensures
            r == self@.dom().contains(*skill),
    {
        proof {
            lemma_entries_map_dom(self.entries@);
        }
        let mut i: usize = 0;
        while i < self.entries.len()
            invariant
                i <= self.entries@.len(),
                forall|j: int| 0 <= j < i ==> self.entries@[j].skill != *skill,
                self@.dom().contains(*skill) == spec_entries_contain(self.entries@, *skill),
            decreases self.entries@.len() - i,
        {
            if self.entries[i].skill == *skill {
                return true;
            }
            i = i + 1;
        }
        false
    }

    /// The level at which `skill` is unlocked, or `None` when it is not.
    pub fn get(&self, skill: &Skill) -> (r: Option<Level>)
        requires
            self.wf(),
        ensures
            r == if self@.dom().contains(*skill) {
                Some(self@[*skill])
            } else {
                None
            },
    {
        proof {
            lemma_entries_map_dom(self.entries@);
        }
        let mut i: usize = 0;
        while i < self.entries.len()
            invariant
                self.wf(),
                i <= self.entries@.len(),
                forall|j: int| 0 <= j < i ==> self.entries@[j].skill != *skill,
                self@.dom().contains(*skill) == spec_entries_contain(self.entries@, *skill),
            decreases self.entries@.len() - i,
        {
            if self.entries[i].skill == *skill {
                proof {
                    lemma_entries_map_get(self.entries@, i as int);
                }
                return Some(self.entries[i].level);
            }
            i = i + 1;
        }
        None
    }

    /// Records `skill` at `level`, replacing any earlier level.
    pub fn insert(&mut self, skill: Skill, level: Level)
        requires
            old(self).wf(),
        ensures
            final(self).wf(),
            final(self)@ == old(self)@.insert(skill, level),
    {
        let n = self.entries.len();
        let mut i: usize = 0;
        while i < n
            invariant
                self.wf(),
                self == old(self),
                i <= n == self.entries@.len(),
                forall|j: int| 0 <= j < i ==> self.entries@[j].skill != skill,
            decreases n - i,
        {
            if self.entries[i].skill == skill {
                proof {
                    lemma_entries_map_update(self.entries@, i as int, level);
                }
                self.entries[i] = SkillEntry { skill, level };
                return ;
            }
            i = i + 1;
        }
        proof {
            lemma_entries_map_dom(self.entries@);
            let entries = self.entries@;
            let pushed = entries.push(SkillEntry { skill, level });
            assert(pushed.drop_last() =~= entries);
            assert(spec_entries_map(pushed) == spec_entries_map(entries).insert(skill, level));
            assert forall|a: int, b: int| 0 <= a < b < pushed.len() implies pushed[a].skill
                != pushed[b].skill by {
                if b < pushed.len() - 1 {
                    assert(pushed[a] == entries[a] && pushed[b] == entries[b]);
                } else {
                    assert(pushed[a] == entries[a]);
                }
            }
        }
        self.entries.push(SkillEntry { skill, level });
    }

    /// Forgets `skill` altogether.
    pub fn remove(&mut self, skill: &Skill)
        requires
            old(self).wf(),
        ensures
            final(self).wf(),
            final(self)@ == old(self)@.remove(*skill),
    {
        proof {
            lemma_entries_map_dom(self.entries@);
        }
        let n = self.entries.len();
        let mut i: usize = 0;
        while i < n
            invariant
                self.wf(),
                self == old(self),
                i <= n == self.entries@.len(),
                forall|j: int| 0 <= j < i ==> self.entries@[j].skill != *skill,
            decreases n - i,
        {
            if self.entries[i].skill == *skill {
                proof {
                    lemma_entries_map_remove(self.entries@, i as int);
                }
                self.entries.remove(i);
                return ;
            }
            i = i + 1;
        }
        proof {
            assert(!spec_entries_contain(self.entries@, *skill));
            assert(self@.remove(*skill) =~= self@);
        }
    }
}

/// Whether some unlocked group is of type `t`.
pub open spec fn spec_has_group(groups: Seq<SkillGroup>, t: SkillGroupType) -> bool {
    exists|i: int| 0 <= i < groups.len() && groups[i].skill_group_type == t
}

/// The index of the first group of type `t`, or -1 when there is none.
pub open spec fn spec_first_group(groups: Seq<SkillGroup>, t: SkillGroupType) -> int
    decreases groups.len(),
{
    if groups.len() == 0 {
        -1
    } else if groups.first().skill_group_type == t {
        0
    } else {
        let r = spec_first_group(groups.drop_first(), t);
        if r == -1 {
            -1
        } else {
            r + 1
        }
    }
}

proof fn lemma_first_group_at(groups: Seq<SkillGroup>, t: SkillGroupType, i: int)
    requires
        0 <= i < groups.len(),
        groups[i].skill_group_type == t,
        forall|j: int| 0 <= j < i ==> groups[j].skill_group_type != t,
    ensures
        spec_first_group(groups, t) == i,
    decreases groups.len(),
{
    if i > 0 {
        let rest = groups.drop_first();
        assert(forall|j: int| 0 <= j < i - 1 ==> rest[j].skill_group_type != t);
        assert(rest[i - 1].skill_group_type == t);
        lemma_first_group_at(rest, t, i - 1);
    }
}

proof fn lemma_first_group_none(groups: Seq<SkillGroup>, t: SkillGroupType)
    requires
        forall|j: int| 0 <= j < groups.len() ==> groups[j].skill_group_type != t,
    ensures
        spec_first_group(groups, t) == -1,
    decreases groups.len(),
{
    if groups.len() > 0 {
        let rest = groups.drop_first();
        assert(forall|j: int| 0 <= j < rest.len() ==> rest[j].skill_group_type != t);
        lemma_first_group_none(rest, t);
    }
}

/// Index of the first group of type `t`, matching [`spec_first_group`].
fn find_group_index(groups: &Vec<SkillGroup>, t: SkillGroupType) -> (r: Option<usize>)
    ensures
        match r {
            Some(i) => i < groups@.len() && spec_first_group(groups@, t) == i
                && groups@[i as int].skill_group_type == t,
            None => spec_first_group(groups@, t) == -1 && !spec_has_group(groups@, t),
        },
{
    let n = groups.len();
    let mut i: usize = 0;
    while i < n
        invariant
            i <= n == groups@.len(),
            forall|j: int| 0 <= j < i ==> groups@[j].skill_group_type != t,
        decreases n - i,
    {
        if groups[i].skill_group_type == t {
            proof {
                lemma_first_group_at(groups@, t, i as int);
            }
            return Some(i);
        }
        i = i + 1;
    }
    proof {
        lemma_first_group_none(groups@, t);
    }
    None
}

/// Saturating addition on skill points, as the counters use it.
pub open spec fn spec_sat_add(a: u16, b: u16) -> u16 {
    if a + b > 0xFFFF {
        0xFFFFu16
    } else {
        (a + b) as u16
    }
}

/// Experience wraps modulo 2^16 when a change drives it outside `u16`.
pub open spec fn spec_wrap_exp(v: int) -> u16 {
    (v % 0x10000) as u16
}

/// The level a skill would have after being unlocked once more: one above
/// its stored level, or level one (of a levelled skill) when it is new.
pub open spec fn spec_next_level(
    skills: Map<Skill, Level>,
    skill: Skill,
    levels: Seq<SkillLevelDef>,
) -> Level {
    if skills.dom().contains(skill) {
        match skills[skill] {
            Some(l) => Some((l + 1) as u16),
            None => None,
        }
    } else {
        match spec_max_level(levels, skill) {
            Some(m) => Some(1u16),
            None => None,
        }
    }
}

/// The stored level of `skill`, if any, leaves room for one more level:
/// what the level arithmetic of the unlock path needs.
pub open spec fn spec_stored_level_ok(skills: Map<Skill, Level>, skill: Skill) -> bool {
    skills.dom().contains(skill) ==> match skills[skill] {
        Some(l) => l < 0xFFFF,
        None => true,
    }
}

/// Whether every prerequisite of unlocking `skill` once more is met.
pub open spec fn spec_prereqs_met(
    skills: Map<Skill, Level>,
    skill: Skill,
    defs: SkillDefinitions,
) -> bool {
    let reqs = spec_prerequisite_skills(
        defs.prerequisites@,
        skill,
        spec_next_level(skills, skill, defs.max_levels@),
    );
    forall|i: int|
        0 <= i < reqs.len() ==> skills.dom().contains(#[trigger] reqs[i].skill) && spec_level_ge(
            skills[reqs[i].skill],
            reqs[i].level,
        )
}

/// Whether an unlocked level satisfies a required one.
fn level_ge(a: Level, b: Level) -> (r: bool)
    ensures
        r == spec_level_ge(a, b),
{
    match b {
        None => true,
        Some(lb) => match a {
            None => false,
            Some(la) => la >= lb,
        },
    }
}

/// Everything a player has unlocked: their skill groups and their skills,
/// with the flags that tell the health and energy systems to recompute.
#[derive(Clone, Debug, PartialEq)]
pub struct SkillSet {
    pub skill_groups: Vec<SkillGroup>,
    pub skills: SkillMap,
    pub modify_health: bool,
    pub modify_energy: bool,
}

impl Default for SkillSet {
    /// A new player's skill set: the general group alone, no skills.
    fn default() -> (r: Self)
        ensures
            r.wf(),
            r.skill_groups@ == seq![
                (SkillGroup {
                    skill_group_type: SkillGroupType::General,
                    exp: 0u16,
                    available_sp: 0u16,
                    earned_sp: 0u16,
                }),
            ],
            r.skills@ == Map::<Skill, Level>::empty(),
            !r.modify_health,
            !r.modify_energy,
    {
        let mut skill_groups: Vec<SkillGroup> = Vec::new();
        skill_groups.push(SkillGroup::new(SkillGroupType::General));
        let r = SkillSet {
            skill_groups,
            skills: SkillMap::new(),
            modify_health: false,
            modify_energy: false,
        };
        proof {
            assert(r.skill_groups@ =~= seq![
                (SkillGroup {
                    skill_group_type: SkillGroupType::General,
                    exp: 0u16,
                    available_sp: 0u16,
                    earned_sp: 0u16,
                }),
            ]);
        }
        r
    }
}

impl SkillSet {
    /// The skill map never repeats a skill and no two groups share a type.
    pub open spec fn wf(&self) -> bool {
        &&& self.skills.wf()
        &&& forall|i: int, j: int|
            0 <= i < j < self.skill_groups@.len() ==> self.skill_groups@[i].skill_group_type
                != self.skill_groups@[j].skill_group_type
    }

    /// Unlocks a skill group for the player, starting empty; a group the
    /// player already has is left alone.
    pub fn unlock_skill_group(&mut self, skill_group_type: SkillGroupType)
        requires
            old(self).wf(),
        ensures
            final(self).wf(),
            final(self).skills == old(self).skills,
            final(self).modify_health == old(self).modify_health,
            final(self).modify_energy == old(self).modify_energy,
            final(self).skill_groups@ == if spec_has_group(
                old(self).skill_groups@,
                skill_group_type,
            ) {
                old(self).skill_groups@
            } else {
                old(self).skill_groups@.push(
                    (SkillGroup {
                        skill_group_type,
                        exp: 0u16,
                        available_sp: 0u16,
                        earned_sp: 0u16,
                    }),
                )
            },
    {
        match find_group_index(&self.skill_groups, skill_group_type) {
            Some(_) => {},
            None => {
                let ghost before = self.skill_groups@;
                self.skill_groups.push(SkillGroup::new(skill_group_type));
                proof {
                    assert forall|i: int, j: int|
                        0 <= i < j < self.skill_groups@.len() implies self.skill_groups@[i].skill_group_type
                        != self.skill_groups@[j].skill_group_type by {
                        if j < self.skill_groups@.len() - 1 {
                            assert(self.skill_groups@[i] == before[i]);
                            assert(self.skill_groups@[j] == before[j]);
                        } else {
                            assert(self.skill_groups@[i] == before[i]);
                            assert(!spec_has_group(before, skill_group_type));
                        }
                    }
                }
            },
        }
    }

    /// Whether the player has unlocked a group of this type.
    pub fn contains_skill_group(&self, skill_group_type: SkillGroupType) -> (r: bool)
        ensures
            r == spec_has_group(self.skill_groups@, skill_group_type),
    {
        match find_group_index(&self.skill_groups, skill_group_type) {
            Some(_) => true,
            None => false,
        }
    }

    /// Adds earned skill points to a group the player has; both the
    /// available and the lifetime counter saturate rather than wrap.  A
    /// group the player lacks is left alone.
    pub fn add_skill_points(
        &mut self,
        skill_group_type: SkillGroupType,
        number_of_skill_points: u16,
    )
        requires
            old(self).wf(),
        ensures
            final(self).wf(),
            final(self).skills == old(self).skills,
            final(self).modify_health == old(self).modify_health,
            final(self).modify_energy == old(self).modify_energy,
            ({
                let k = spec_first_group(old(self).skill_groups@, skill_group_type);
                final(self).skill_groups@ == if k >= 0 {
                    let g = old(self).skill_groups@[k];
                    old(self).skill_groups@.update(
                        k,
                        (SkillGroup {
                            skill_group_type: g.skill_group_type,
                            exp: g.exp,
                            available_sp: spec_sat_add(g.available_sp, number_of_skill_points),
                            earned_sp: spec_sat_add(g.earned_sp, number_of_skill_points),
                        }),
                    )
                } else {
                    old(self).skill_groups@
                }
            }),
    {
        match find_group_index(&self.skill_groups, skill_group_type) {
            Some(i) => {
                let g_type = self.skill_groups[i].skill_group_type;
                let g_exp = self.skill_groups[i].exp;
                let g_avail = self.skill_groups[i].available_sp;
                let g_earned = self.skill_groups[i].earned_sp;
                self.skill_groups[i] = SkillGroup {
                    skill_group_type: g_type,
                    exp: g_exp,
                    available_sp: g_avail.saturating_add(number_of_skill_points),
                    earned_sp: g_earned.saturating_add(number_of_skill_points),
                };
            },
            None => {},
        }
    }

    /// Adds (or, negative, removes) experience in a group the player has,
    /// wrapping modulo 2^16; a group the player lacks is left alone.
    pub fn change_experience(&mut self, skill_group_type: SkillGroupType, amount: i32)
        requires
            old(self).wf(),
            ({
                let k = spec_first_group(old(self).skill_groups@, skill_group_type);
                k >= 0 ==> old(self).skill_groups@[k].exp + amount <= i32::MAX
            }),
        ensures
            final(self).wf(),
            final(self).skills == old(self).skills,
            final(self).modify_health == old(self).modify_health,
            final(self).modify_energy == old(self).modify_energy,
            ({
                let k = spec_first_group(old(self).skill_groups@, skill_group_type);
                final(self).skill_groups@ == if k >= 0 {
                    let g = old(self).skill_groups@[k];
                    old(self).skill_groups@.update(
                        k,
                        (SkillGroup {
                            skill_group_type: g.skill_group_type,
                            exp: spec_wrap_exp(g.exp + amount),
                            available_sp: g.available_sp,
                            earned_sp: g.earned_sp,
                        }),
                    )
                } else {
                    old(self).skill_groups@
                }
            }),
    {
        match find_group_index(&self.skill_groups, skill_group_type) {
            Some(i) => {
                let g_type = self.skill_groups[i].skill_group_type;
                let g_exp = self.skill_groups[i].exp;
                let g_avail = self.skill_groups[i].available_sp;
                let g_earned = self.skill_groups[i].earned_sp;
                let new_exp: u16 = if amount >= 0 {
                    let sum: u32 = g_exp as u32 + amount as u32;
                    proof {
                        vstd::arithmetic::div_mod::lemma_mod_division_less_than_divisor(
                            g_exp + amount,
                            0x10000,
                        );
                    }
                    (sum % 0x10000u32) as u16
                } else {
                    let sub: u32 = (-(amount as i64)) as u32;
                    let m0: u32 = sub % 0x10000u32;
                    let w: u32 = (g_exp as u32 + 0x10000u32 - m0) % 0x10000u32;
                    proof {
                        let e = g_exp as int;
                        let s = sub as int;
                        let q = s / 0x10000;
                        vstd::arithmetic::div_mod::lemma_fundamental_div_mod(s, 0x10000);
                        assert(e - s == 0x10000 * (-q) + (e - m0)) by {
                            assert(s == 0x10000 * q + m0);
                        }
                        vstd::arithmetic::div_mod::lemma_mod_multiples_vanish(
                            -q,
                            e - m0,
                            0x10000,
                        );
                        assert(e + 0x10000 - m0 == 0x10000 * 1 + (e - m0));
                        vstd::arithmetic::div_mod::lemma_mod_multiples_vanish(
                            1,
                            e - m0,
                            0x10000,
                        );
                        vstd::arithmetic::div_mod::lemma_mod_division_less_than_divisor(
                            e - s,
                            0x10000,
                        );
                        vstd::arithmetic::div_mod::lemma_mod_division_less_than_divisor(
                            m0 as int,
                            0x10000,
                        );
                        assert(w == (e - s) % 0x10000);
                        assert(g_exp + amount == e - s);
                    }
                    w as u16
                };
                self.skill_groups[i] = SkillGroup {
                    skill_group_type: g_type,
                    exp: new_exp,
                    available_sp: g_avail,
                    earned_sp: g_earned,
                };
            },
            None => {},
        }
    }

    /// The skill points available to spend in a group: zero for a group
    /// the player lacks.
    pub fn get_available_sp(&self, skill_group: SkillGroupType) -> (r: u16)
        ensures
            r == ({
                let k = spec_first_group(self.skill_groups@, skill_group);
                if k >= 0 {
                    self.skill_groups@[k].available_sp
                } else {
                    0u16
                }
            }),
    {
        match find_group_index(&self.skill_groups, skill_group) {
            Some(i) => self.skill_groups[i].available_sp,
            None => 0,
        }
    }

    /// The skill points ever earned in a group: zero for a group the
    /// player lacks.
    pub fn get_earned_sp(&self, skill_group: SkillGroupType) -> (r: u16)
        ensures
            r == ({
                let k = spec_first_group(self.skill_groups@, skill_group);
                if k >= 0 {
                    self.skill_groups@[k].earned_sp
                } else {
                    0u16
                }
            }),
    {
        match find_group_index(&self.skill_groups, skill_group) {
            Some(i) => self.skill_groups[i].earned_sp,
            None => 0,
        }
    }

    /// The experience accumulated in a group: zero for a group the player
    /// lacks.
    pub fn get_experience(&self, skill_group: SkillGroupType) -> (r: u16)
        ensures
            r == ({
                let k = spec_first_group(self.skill_groups@, skill_group);
                if k >= 0 {
                    self.skill_groups@[k].exp
                } else {
                    0u16
                }
            }),
    {
        match find_group_index(&self.skill_groups, skill_group) {
            Some(i) => self.skill_groups[i].exp,
            None => 0,
        }
    }

    /// The level `skill` would reach if unlocked once more.
    fn next_level(&self, skill: Skill, defs: &SkillDefinitions) -> (r: Level)
        requires
            self.wf(),
            spec_stored_level_ok(self.skills@, skill),
        ensures
            r == spec_next_level(self.skills@, skill, defs.max_levels@),
    {
        match self.skills.get(&skill) {
            Some(level) => match level {
                Some(l) => Some(l + 1),
                None => None,
            },
            None => match skill.get_max_level(defs) {
                Some(_) => Some(1),
                None => None,
            },
        }
    }

    /// Whether the player holds every prerequisite skill, at a high enough
    /// level, for unlocking `skill` once more.
    pub fn prerequisites_met(&self, skill: Skill, defs: &SkillDefinitions) -> (r: bool)
        requires
            self.wf(),
            spec_stored_level_ok(self.skills@, skill),
        ensures
            r == spec_prereqs_met(self.skills@, skill, *defs),
    {
        let next = self.next_level(skill, defs);
        let reqs = skill.prerequisite_skills(next, defs);
        let mut i: usize = 0;
        while i < reqs.len()
            invariant
                self.wf(),
                i <= reqs@.len(),
                reqs@ == spec_prerequisite_skills(
                    defs.prerequisites@,
                    skill,
                    spec_next_level(self.skills@, skill, defs.max_levels@),
                ),
                forall|j: int|
                    0 <= j < i ==> self.skills@.dom().contains(#[trigger] reqs@[j].skill)
                        && spec_level_ge(self.skills@[reqs@[j].skill], reqs@[j].level),
            decreases reqs@.len() - i,
        {
            let req = reqs[i];
            if !self.skills.contains_key(&req.skill) {
                return false;
            }
            match self.skills.get(&req.skill) {
                Some(stored) => {
                    if !level_ge(stored, req.level) {
                        return false;
                    }
                },
                None => {
                    return false;
                },
            }
            i = i + 1;
        }
        true
    }

    /// The skill-point cost of unlocking `skill` once more.
    pub fn skill_point_cost(&self, skill: Skill, defs: &SkillDefinitions) -> (r: u16)
        requires
            self.wf(),
            spec_stored_level_ok(self.skills@, skill),
        ensures
            r == spec_skill_cost(spec_next_level(self.skills@, skill, defs.max_levels@)),
    {
        let next = self.next_level(skill, defs);
        skill.skill_cost(next)
    }

    /// Whether the player can pay for unlocking `skill` once more: they
    /// have its group, with at least the needed points available.
    pub fn sufficient_skill_points(&self, skill: Skill, defs: &SkillDefinitions) -> (r: bool)
        requires
            self.wf(),
            spec_stored_level_ok(self.skills@, skill),
        ensures
            r == ({
                match spec_group_of(defs.groups@, skill) {
                    Some(t) => {
                        let k = spec_first_group(self.skill_groups@, t);
                        k >= 0 && self.skill_groups@[k].available_sp >= spec_skill_cost(
                            spec_next_level(self.skills@, skill, defs.max_levels@),
                        )
                    },
                    None => false,
                }
            }),
    {
        match skill.get_skill_group_type(defs) {
            Some(t) => match find_group_index(&self.skill_groups, t) {
                Some(i) => {
                    let needed_sp = self.skill_point_cost(skill, defs);
                    self.skill_groups[i].available_sp >= needed_sp
                },
                None => false,
            },
            None => false,
        }
    }
}

/// What unlocking `skill` does to a skill set: nothing, unless the skill
/// belongs to a group the player has, is not yet at its maximum level, has
/// its prerequisites met and its cost covered — then the cost is deducted,
/// the skill is recorded at its next level, an unlocked group is added for
/// a group-unlocking skill, and the health or energy flag is raised for
/// the corresponding general skill.
pub open spec fn spec_unlock_skill(
    groups: Seq<SkillGroup>,
    skills: Map<Skill, Level>,
    modify_health: bool,
    modify_energy: bool,
    skill: Skill,
    defs: SkillDefinitions,
) -> (Seq<SkillGroup>, Map<Skill, Level>, bool, bool) {
    let unchanged = (groups, skills, modify_health, modify_energy);
    match spec_group_of(defs.groups@, skill) {
        None => unchanged,
        Some(t) => {
            let next = spec_next_level(skills, skill, defs.max_levels@);
            let at_max = skills.dom().contains(skill) && skills[skill] == spec_max_level(
                defs.max_levels@,
                skill,
            );
            let k = spec_first_group(groups, t);
            if !at_max && k >= 0 && spec_prereqs_met(skills, skill, defs)
                && groups[k].available_sp >= spec_skill_cost(next) {
                let g = groups[k];
                let paid = groups.update(
                    k,
                    SkillGroup {
                        skill_group_type: g.skill_group_type,
                        exp: g.exp,
                        available_sp: (g.available_sp - spec_skill_cost(next)) as u16,
                        earned_sp: g.earned_sp,
                    },
                );
                let grown = match skill {
                    Skill::UnlockGroup(new_group) => if spec_has_group(paid, new_group) {
                        paid
                    } else {
                        paid.push(
                            SkillGroup {
                                skill_group_type: new_group,
                                exp: 0u16,
                                available_sp: 0u16,
                                earned_sp: 0u16,
                            },
                        )
                    },
                    _ => paid,
                };
                let mh = modify_health || skill == Skill::General(GeneralSkill::HealthIncrease);
                let me = modify_energy || skill == Skill::General(GeneralSkill::EnergyIncrease);
                (grown, skills.insert(skill, next), mh, me)
            } else {
                unchanged
            }
        },
    }
}

/// What refunding `skill` does to a skill set: nothing, unless the player
/// holds the skill and its group — then one unlock's cost returns to the
/// group's available points, and the skill drops one level or disappears.
pub open spec fn spec_refund_skill(
    groups: Seq<SkillGroup>,
    skills: Map<Skill, Level>,
    skill: Skill,
    defs: SkillDefinitions,
) -> (Seq<SkillGroup>, Map<Skill, Level>) {
    if !skills.dom().contains(skill) {
        (groups, skills)
    } else {
        match spec_group_of(defs.groups@, skill) {
            None => (groups, skills),
            Some(t) => {
                let k = spec_first_group(groups, t);
                if k < 0 {
                    (groups, skills)
                } else {
                    let stored = skills[skill];
                    let g = groups[k];
                    let refunded = groups.update(
                        k,
                        SkillGroup {
                            skill_group_type: g.skill_group_type,
                            exp: g.exp,
                            available_sp: (g.available_sp + spec_skill_cost(stored)) as u16,
                            earned_sp: g.earned_sp,
                        },
                    );
                    let lowered = match stored {
                        Some(l) => if l > 1 {
                            skills.insert(skill, Some((l - 1) as u16))
                        } else {
                            skills.remove(skill)
                        },
                        None => skills.remove(skill),
                    };
                    (refunded, lowered)
                }
            },
        }
    }
}

impl SkillSet {
    /// Unlocks `skill` for the player, spending the needed skill points,
    /// when its group is unlocked, it is below its maximum level, its
    /// prerequisites are met and the points suffice; otherwise the set is
    /// left as it was.  Exactly [`spec_unlock_skill`].
    pub fn unlock_skill(&mut self, skill: Skill, defs: &SkillDefinitions)
        requires
            old(self).wf(),
            spec_stored_level_ok(old(self).skills@, skill),
        ensures
            final(self).wf(),
            (
                final(self).skill_groups@,
                final(self).skills@,
                final(self).modify_health,
                final(self).modify_energy,
            ) == spec_unlock_skill(
                old(self).skill_groups@,
                old(self).skills@,
                old(self).modify_health,
                old(self).modify_energy,
                skill,
                *defs,
            ),
    {
        match skill.get_skill_group_type(defs) {
            Some(skill_group_type) => {
                let next_level = self.next_level(skill, defs);
                let prerequisites_met = self.prerequisites_met(skill, defs);
                let at_max = match self.skills.get(&skill) {
                    Some(level) => {
                        let max = skill.get_max_level(defs);
                        level_eq(level, max)
                    },
                    None => false,
                };
                if !at_max {
                    match find_group_index(&self.skill_groups, skill_group_type) {
                        Some(i) => {
                            if prerequisites_met {
                                let cost = skill.skill_cost(next_level);
                                if self.skill_groups[i].available_sp >= cost {
                                    let g_type = self.skill_groups[i].skill_group_type;
                                    let g_exp = self.skill_groups[i].exp;
                                    let g_avail = self.skill_groups[i].available_sp;
                                    let g_earned = self.skill_groups[i].earned_sp;
                                    self.skill_groups[i] = SkillGroup {
                                        skill_group_type: g_type,
                                        exp: g_exp,
                                        available_sp: g_avail - cost,
                                        earned_sp: g_earned,
                                    };
                                    match skill {
                                        Skill::UnlockGroup(group) => {
                                            self.unlock_skill_group(group);
                                        },
                                        _ => {},
                                    }
                                    match skill {
                                        Skill::General(GeneralSkill::HealthIncrease) => {
                                            self.modify_health = true;
                                        },
                                        Skill::General(GeneralSkill::EnergyIncrease) => {
                                            self.modify_energy = true;
                                        },
                                        _ => {},
                                    }
                                    self.skills.insert(skill, next_level);
                                }
                            }
                        },
                        None => {},
                    }
                }
            },
            None => {},
        }
    }

    /// Takes `skill` back one level — or away — and refunds one unlock's
    /// cost to its group, when the player holds both the skill and its
    /// group; otherwise the set is left as it was.  Exactly
    /// [`spec_refund_skill`].
    pub fn refund_skill(&mut self, skill: Skill, defs: &SkillDefinitions)
        requires
            old(self).wf(),
            ({
                let skills = old(self).skills@;
                let groups = old(self).skill_groups@;
                skills.dom().contains(skill) ==> match spec_group_of(defs.groups@, skill) {
                    Some(t) => {
                        let k = spec_first_group(groups, t);
                        k >= 0 ==> groups[k].available_sp + spec_skill_cost(skills[skill])
                            <= 0xFFFF
                    },
                    None => true,
                }
            }),
        ensures
            final(self).wf(),
            final(self).modify_health == old(self).modify_health,
            final(self).modify_energy == old(self).modify_energy,
            (final(self).skill_groups@, final(self).skills@) == spec_refund_skill(
                old(self).skill_groups@,
                old(self).skills@,
                skill,
                *defs,
            ),
    {
        if self.skills.contains_key(&skill) {
            match skill.get_skill_group_type(defs) {
                Some(skill_group_type) => {
                    match find_group_index(&self.skill_groups, skill_group_type) {
                        Some(i) => {
                            let level = match self.skills.get(&skill) {
                                Some(l) => l,
                                None => None,
                            };
                            let g_type = self.skill_groups[i].skill_group_type;
                            let g_exp = self.skill_groups[i].exp;
                            let g_avail = self.skill_groups[i].available_sp;
                            let g_earned = self.skill_groups[i].earned_sp;
                            self.skill_groups[i] = SkillGroup {
                                skill_group_type: g_type,
                                exp: g_exp,
                                available_sp: g_avail + skill.skill_cost(level),
                                earned_sp: g_earned,
                            };
                            match level {
                                Some(l) => {
                                    if l > 1 {
                                        self.skills.insert(skill, Some(l - 1));
                                    } else {
                                        self.skills.remove(&skill);
                                    }
                                },
                                None => {
                                    self.skills.remove(&skill);
                                },
                            }
                        },
                        None => {},
                    }
                },
                None => {},
            }
        }
    }
}

/// Whether two levels are the same.
fn level_eq(a: Level, b: Level) -> (r: bool)
    ensures
        r == (a == b),
{
    match (a, b) {
        (None, None) => true,
        (Some(x), Some(y)) => x == y,
        _ => false,
    }
}

/// The sum 1 + 2 + ... + n: what levelling one skill from nothing to
/// level `n` costs in skill points.
pub open spec fn spec_triangle(n: int) -> int
    decreases n,
{
    if n <= 0 {
        0
    } else {
        spec_triangle(n - 1) + n
    }
}

proof fn lemma_triangle_mono(a: int, b: int)
    requires
        a <= b,
    ensures
        0 <= spec_triangle(a) <= spec_triangle(b),
    decreases b,
{
    if b > 0 && a < b {
        lemma_triangle_mono(a, b - 1);
    } else if b > 0 {
        lemma_triangle_mono(a - 1, b - 1);
    }
}

/// What fully levelling one skill costs: every level up to its maximum,
/// or a single point for a skill that does not level.
pub open spec fn spec_skill_sp_cost(levels: Seq<SkillLevelDef>, skill: Skill) -> int {
    match spec_max_level(levels, skill) {
        Some(m) => spec_triangle(m as int),
        None => 1,
    }
}

/// What fully levelling every listed skill costs.
pub open spec fn spec_group_sum(skills: Seq<Skill>, levels: Seq<SkillLevelDef>) -> int
    decreases skills.len(),
{
    if skills.len() == 0 {
        0
    } else {
        spec_skill_sp_cost(levels, skills.first()) + spec_group_sum(skills.drop_first(), levels)
    }
}

proof fn lemma_group_sum_nonneg(skills: Seq<Skill>, levels: Seq<SkillLevelDef>)
    ensures
        spec_group_sum(skills, levels) >= 0,
    decreases skills.len(),
{
    if skills.len() > 0 {
        lemma_group_sum_nonneg(skills.drop_first(), levels);
        match spec_max_level(levels, skills.first()) {
            Some(m) => {
                lemma_triangle_mono(0, m as int);
            },
            None => {},
        }
    }
}

proof fn lemma_group_sum_split(skills: Seq<Skill>, levels: Seq<SkillLevelDef>, i: int)
    requires
        0 <= i < skills.len(),
    ensures
        spec_group_sum(skills.skip(i), levels) == spec_skill_sp_cost(levels, skills[i])
            + spec_group_sum(skills.skip(i + 1), levels),
{
    let tail = skills.skip(i);
    assert(tail.first() == skills[i]);
    assert(tail.drop_first() =~= skills.skip(i + 1));
}

/// The total skill points that can ever be spent in one group: the cost
/// of fully levelling each of its member skills.
pub open spec fn spec_max_skill_points(defs: SkillDefinitions, group: SkillGroupType) -> int {
    match spec_skills_of_group(defs.groups@, group) {
        Some(list) => spec_group_sum(list, defs.max_levels@),
        None => 0,
    }
}

/// The index of the definition of `group`, matching
/// [`spec_skills_of_group`].
fn find_group_def(defs: &SkillDefinitions, group: SkillGroupType) -> (r: Option<usize>)
    ensures
        match r {
            Some(i) => i < defs.groups@.len() && spec_skills_of_group(defs.groups@, group) == Some(
                defs.groups@[i as int].skills@,
            ),
            None => spec_skills_of_group(defs.groups@, group) is None,
        },
{
    let n = defs.groups.len();
    let mut i: usize = 0;
    proof {
        assert(defs.groups@.skip(0) =~= defs.groups@);
    }
    while i < n
        invariant
            i <= n == defs.groups@.len(),
            spec_skills_of_group(defs.groups@, group) == spec_skills_of_group(
                defs.groups@.skip(i as int),
                group,
            ),
        decreases n - i,
    {
        proof {
            assert(defs.groups@.skip(i as int).first() == defs.groups@[i as int]);
            assert(defs.groups@.skip(i as int).drop_first() =~= defs.groups@.skip(i + 1));
        }
        if defs.groups[i].group == group {
            return Some(i);
        }
        i = i + 1;
    }
    None
}

impl SkillGroupType {
    /// The total skill points that can be spent in this group under the
    /// given definitions: fully levelling each member skill.
    pub fn get_max_skill_points(self, defs: &SkillDefinitions) -> (r: u16)
        requires
            spec_max_skill_points(*defs, self) <= 0xFFFF,
        ensures
            r == spec_max_skill_points(*defs, self),
    {
        let mut cost: u16 = 0;
        match find_group_def(defs, self) {
            Some(gi) => {
                let list = &defs.groups[gi].skills;
                let ghost levels = defs.max_levels@;
                let ghost total = spec_group_sum(list@, levels);
                let n = list.len();
                let mut i: usize = 0;
                proof {
                    assert(list@.skip(0) =~= list@);
                }
                while i < n
                    invariant
                        i <= n == list@.len(),
                        levels == defs.max_levels@,
                        total == spec_group_sum(list@, levels) <= 0xFFFF,
                        cost + spec_group_sum(list@.skip(i as int), levels) == total,
                    decreases n - i,
                {
                    let skill = list[i];
                    proof {
                        lemma_group_sum_split(list@, levels, i as int);
                        lemma_group_sum_nonneg(list@.skip(i + 1), levels);
                    }
                    match skill.get_max_level(defs) {
                        Some(max_level) => {
                            let ghost base = cost;
                            let mut level: u32 = 1;
                            proof {
                                lemma_triangle_mono(0, max_level as int);
                            }
                            while level <= max_level as u32
                                invariant
                                    1 <= level <= max_level as u32 + 1,
                                    base + spec_triangle(max_level as int) + spec_group_sum(
                                        list@.skip(i + 1),
                                        levels,
                                    ) == total <= 0xFFFF,
                                    spec_group_sum(list@.skip(i + 1), levels) >= 0,
                                    cost == base + spec_triangle(level - 1),
                                decreases max_level as u32 + 1 - level,
                            {
                                proof {
                                    lemma_triangle_mono(level as int, max_level as int);
                                }
                                cost = cost + skill.skill_cost(Some(level as u16));
                                level = level + 1;
                            }
                        },
                        None => {
                            cost = cost + skill.skill_cost(None);
                        },
                    }
                    i = i + 1;
                }
                proof {
                    assert(list@.skip(n as int) =~= Seq::<Skill>::empty());
                }
            },
            None => {},
        }
        cost
    }
}

impl SkillSet {
    /// Whether any group still has points to spend that its total tree
    /// could absorb: available points, with fewer points sunk into skills
    /// than the whole tree costs.
    pub fn has_available_sp(&self, defs: &SkillDefinitions) -> (r: bool)
        requires
            forall|i: int|
                0 <= i < self.skill_groups@.len() ==> (#[trigger] self.skill_groups@[i]).available_sp
                    <= self.skill_groups@[i].earned_sp,
            forall|i: int|
                0 <= i < self.skill_groups@.len() ==> spec_max_skill_points(
                    *defs,
                    (#[trigger] self.skill_groups@[i]).skill_group_type,
                ) <= 0xFFFF,
        ensures
            r == exists|i: int|
                0 <= i < self.skill_groups@.len() && (#[trigger] self.skill_groups@[i]).available_sp
                    > 0 && self.skill_groups@[i].earned_sp - self.skill_groups@[i].available_sp
                    < spec_max_skill_points(*defs, self.skill_groups@[i].skill_group_type),
    {
        let n = self.skill_groups.len();
        let mut i: usize = 0;
        while i < n
            invariant
                i <= n == self.skill_groups@.len(),
                forall|j: int|
                    0 <= j < self.skill_groups@.len() ==> (#[trigger] self.skill_groups@[j]).available_sp
                        <= self.skill_groups@[j].earned_sp,
                forall|j: int|
                    0 <= j < self.skill_groups@.len() ==> spec_max_skill_points(
                        *defs,
                        (#[trigger] self.skill_groups@[j]).skill_group_type,
                    ) <= 0xFFFF,
                forall|j: int|
                    0 <= j < i ==> !((#[trigger] self.skill_groups@[j]).available_sp > 0
                        && self.skill_groups@[j].earned_sp - self.skill_groups@[j].available_sp
                        < spec_max_skill_points(*defs, self.skill_groups@[j].skill_group_type)),
            decreases n - i,
        {
            let sg_avail = self.skill_groups[i].available_sp;
            let sg_earned = self.skill_groups[i].earned_sp;
            if sg_avail > 0 {
                let max = self.skill_groups[i].skill_group_type.get_max_skill_points(defs);
                if sg_earned - sg_avail < max {
                    return true;
                }
            }
            i = i + 1;
        }
        false
    }
}

} // verus!
