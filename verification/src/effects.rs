//! Status-effect identifiers that ride along inside replicated entity
//! payloads. The sync layer moves them; it does not interpret them.

use vstd::prelude::*;

verus! {

/// A named game effect carried in an entity's replicated state.
#[derive(Clone, Copy, PartialEq, Eq, Structural, Debug)]
pub enum GameEffectEnum {
    NoEffect,
    Electrocution,
    Frozen,
    OnFire,
    Poison,
    Berserk,
    Charm,
    Polymorph,
    PolymorphRandom,
    Blindness,
    Telepathy,
    Teleportation,
    Regeneration,
    Levitation,
    MovementSlower,
    Farts,
    Drunk,
    BreathUnderwater,
    Radioactive,
    Wet,
    Oiled,
    Bloody,
    Slimy,
    CriticalHitBoost,
    Confusion,
    MeleeCounter,
    WormAttractor,
    WormDetractor,
    FoodPoisoning,
    FriendThundermage,
    FriendFiremage,
    InternalFire,
    InternalIce,
    Jarate,
    Knockback,
    KnockbackImmunity,
    MovementSlower2X,
    MovementFaster,
    StainsDropFaster,
    SavingGrace,
    DamageMultiplier,
    HealingBlood,
    Respawn,
    ProtectionFire,
    ProtectionRadioactivity,
    ProtectionExplosion,
    ProtectionMelee,
    ProtectionElectricity,
    Teleportitis,
    StainlessArmour,
    GlobalGore,
    EditWandsEverywhere,
    ExplodingCorpseShots,
    ExplodingCorpse,
    ExtraMoney,
    ExtraMoneyTrickKill,
    HoverBoost,
    ProjectileHoming,
    AbilityActionsMaterialized,
    NoDamageFlash,
    NoSlimeSlowdown,
    MovementFaster2X,
    NoWandEditing,
    LowHpDamageBoost,
    FasterLevitation,
    StunProtectionElectricity,
    StunProtectionFreeze,
    IronStomach,
    ProtectionAll,
    Invisibility,
    RemoveFogOfWar,
    ManaRegeneration,
    ProtectionDuringTeleport,
    ProtectionPolymorph,
    ProtectionFreeze,
    FrozenSpeedUp,
    UnstableTeleportation,
    PolymorphUnstable,
    Custom,
    AllergyRadioactive,
    RainbowFarts,
    Weakness,
    ProtectionFoodPoisoning,
    NoHeal,
    ProtectionEdges,
    ProtectionProjectile,
    PolymorphCessation,
    _Last,
}

/// A game effect as replicated: a named effect, a host-defined custom
/// effect, or a serialized projectile payload.
#[derive(Clone, PartialEq, Debug)]
pub enum GameEffectData {
    Normal(GameEffectEnum),
    Custom(String),
    Projectile(Vec<u8>),
}

} // verus!
