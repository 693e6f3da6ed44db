use crate::decode::Decode;
use crate::error::{DecodeError, DecodeErrorView, FormatError, FormatErrorView};
use crate::text::{chars_of, eq_ignoring_case, folded, same_ignoring_case};
use crate::value::{kind_of, JsonValue, RawValue};
use vstd::prelude::*;

verus! {

/// The flags that an item, a recipe or an entity may carry.
#[derive(Debug, Clone, Copy, PartialEq, Eq, PartialOrd, Ord, Hash, Structural)]
pub enum Flags {
    Hidden,
    OnlyInCursor,
    PrimaryPlaceResult,
    AlwaysShow,
    DrawLogisticOverlay,
    HideFromBonusGui,
    PlayerCreation,
    PlaceableNeutral,
    PlaceablePlayer,
    NotRotatable,
    HideAltInfo,
    GoesToMainInventory,
    NotStackable,
    Spawnable,
    NotRepairable,
    NotDeconstructable,
}

/// Every flag, in the order of declaration.
pub open spec fn all_flags() -> Seq<Flags> {
    seq![
        Flags::Hidden,
        Flags::OnlyInCursor,
        Flags::PrimaryPlaceResult,
        Flags::AlwaysShow,
        Flags::DrawLogisticOverlay,
        Flags::HideFromBonusGui,
        Flags::PlayerCreation,
        Flags::PlaceableNeutral,
        Flags::PlaceablePlayer,
        Flags::NotRotatable,
        Flags::HideAltInfo,
        Flags::GoesToMainInventory,
        Flags::NotStackable,
        Flags::Spawnable,
        Flags::NotRepairable,
        Flags::NotDeconstructable,
    ]
}

/// The hyphenated lower-case spelling of a flag.
pub open spec fn hyphenated(flag: Flags) -> Seq<char> {
    match flag {
        Flags::Hidden => "hidden"@,
        Flags::OnlyInCursor => "only-in-cursor"@,
        Flags::PrimaryPlaceResult => "primary-place-result"@,
        Flags::AlwaysShow => "always-show"@,
        Flags::DrawLogisticOverlay => "draw-logistic-overlay"@,
        Flags::HideFromBonusGui => "hide-from-bonus-gui"@,
        Flags::PlayerCreation => "player-creation"@,
        Flags::PlaceableNeutral => "placeable-neutral"@,
        Flags::PlaceablePlayer => "placeable-player"@,
        Flags::NotRotatable => "not-rotatable"@,
        Flags::HideAltInfo => "hide-alt-info"@,
        Flags::GoesToMainInventory => "goes-to-main-inventory"@,
        Flags::NotStackable => "not-stackable"@,
        Flags::Spawnable => "spawnable"@,
        Flags::NotRepairable => "not-repairable"@,
        Flags::NotDeconstructable => "not-deconstructable"@,
    }
}

/// The spelling of a flag with a capital at the start of each word and no hyphen.
pub open spec fn capitalised(flag: Flags) -> Seq<char> {
    match flag {
        Flags::Hidden => "Hidden"@,
        Flags::OnlyInCursor => "OnlyInCursor"@,
        Flags::PrimaryPlaceResult => "PrimaryPlaceResult"@,
        Flags::AlwaysShow => "AlwaysShow"@,
        Flags::DrawLogisticOverlay => "DrawLogisticOverlay"@,
        Flags::HideFromBonusGui => "HideFromBonusGui"@,
        Flags::PlayerCreation => "PlayerCreation"@,
        Flags::PlaceableNeutral => "PlaceableNeutral"@,
        Flags::PlaceablePlayer => "PlaceablePlayer"@,
        Flags::NotRotatable => "NotRotatable"@,
        Flags::HideAltInfo => "HideAltInfo"@,
        Flags::GoesToMainInventory => "GoesToMainInventory"@,
        Flags::NotStackable => "NotStackable"@,
        Flags::Spawnable => "Spawnable"@,
        Flags::NotRepairable => "NotRepairable"@,
        Flags::NotDeconstructable => "NotDeconstructable"@,
    }
}

/// Whether `token` spells `flag` in one of the two conventions, whatever the case of its letters.
pub open spec fn spells(token: Seq<char>, flag: Flags) -> bool {
    same_ignoring_case(token, hyphenated(flag)) || same_ignoring_case(token, capitalised(flag))
}

/// The first flag from position `from` of [`all_flags`] on that `token` spells.
pub open spec fn first_spelled(token: Seq<char>, from: int) -> Option<Flags>
    decreases all_flags().len() - from,
{
    if from < 0 || from >= all_flags().len() {
        None
    } else if spells(token, all_flags()[from]) {
        Some(all_flags()[from])
    } else {
        first_spelled(token, from + 1)
    }
}

/// The flag that `token` names, if it names one.
pub open spec fn flag_named(token: Seq<char>) -> Option<Flags> {
    first_spelled(token, 0)
}

/// What decoding a value as a flag gives.
pub open spec fn flag_decoded(value: JsonValue) -> Result<Flags, DecodeErrorView> {
    match value {
        JsonValue::String(token) => match flag_named(token) {
            Some(flag) => Ok(flag),
            None => Err(
                DecodeErrorView::Format(
                    FormatErrorView::UnknownFlag(token),
                ),
            ),
        },
        other => Err(
            DecodeErrorView::Format(
                FormatErrorView::UnexpectedKind(kind_of(other)),
            ),
        ),
    }
}

impl Flags {
    /// Every flag, in the order of declaration.
    pub fn all() -> (flags: Vec<Flags>)
        ensures
            flags@ == all_flags(),
    {
        let flags = vec![
            Flags::Hidden,
            Flags::OnlyInCursor,
            Flags::PrimaryPlaceResult,
            Flags::AlwaysShow,
            Flags::DrawLogisticOverlay,
            Flags::HideFromBonusGui,
            Flags::PlayerCreation,
            Flags::PlaceableNeutral,
            Flags::PlaceablePlayer,
            Flags::NotRotatable,
            Flags::HideAltInfo,
            Flags::GoesToMainInventory,
            Flags::NotStackable,
            Flags::Spawnable,
            Flags::NotRepairable,
            Flags::NotDeconstructable,
        ];
        assert(flags@ =~= all_flags());
        flags
    }

    /// The hyphenated lower-case spelling of the flag.
    pub fn name(self) -> (name: &'static str)
        ensures
            name@ == hyphenated(self),
    {
        match self {
            Flags::Hidden => "hidden",
            Flags::OnlyInCursor => "only-in-cursor",
            Flags::PrimaryPlaceResult => "primary-place-result",
            Flags::AlwaysShow => "always-show",
            Flags::DrawLogisticOverlay => "draw-logistic-overlay",
            Flags::HideFromBonusGui => "hide-from-bonus-gui",
            Flags::PlayerCreation => "player-creation",
            Flags::PlaceableNeutral => "placeable-neutral",
            Flags::PlaceablePlayer => "placeable-player",
            Flags::NotRotatable => "not-rotatable",
            Flags::HideAltInfo => "hide-alt-info",
            Flags::GoesToMainInventory => "goes-to-main-inventory",
            Flags::NotStackable => "not-stackable",
            Flags::Spawnable => "spawnable",
            Flags::NotRepairable => "not-repairable",
            Flags::NotDeconstructable => "not-deconstructable",
        }
    }

    /// The spelling of the flag with capitals and no hyphen.
    pub fn capitalised_name(self) -> (name: &'static str)
        ensures
            name@ == capitalised(self),
    {
        match self {
            Flags::Hidden => "Hidden",
            Flags::OnlyInCursor => "OnlyInCursor",
            Flags::PrimaryPlaceResult => "PrimaryPlaceResult",
            Flags::AlwaysShow => "AlwaysShow",
            Flags::DrawLogisticOverlay => "DrawLogisticOverlay",
            Flags::HideFromBonusGui => "HideFromBonusGui",
            Flags::PlayerCreation => "PlayerCreation",
            Flags::PlaceableNeutral => "PlaceableNeutral",
            Flags::PlaceablePlayer => "PlaceablePlayer",
            Flags::NotRotatable => "NotRotatable",
            Flags::HideAltInfo => "HideAltInfo",
            Flags::GoesToMainInventory => "GoesToMainInventory",
            Flags::NotStackable => "NotStackable",
            Flags::Spawnable => "Spawnable",
            Flags::NotRepairable => "NotRepairable",
            Flags::NotDeconstructable => "NotDeconstructable",
        }
    }

    /// The hyphenated spelling of every flag, in the order of [`Flags::all`]: the accepted set
    /// that an error about an unknown flag names.
    pub fn all_names() -> (names: Vec<&'static str>)
        ensures
            names@.len() == all_flags().len(),
            forall|i: int| 0 <= i < names@.len() ==> (#[trigger] names@[i])@ == hyphenated(all_flags()[i]),
    {
        let flags = Flags::all();
        let mut names: Vec<&'static str> = Vec::new();
        let mut i: usize = 0;
        while i < flags.len()
            invariant
                i <= flags.len(),
                flags@ == all_flags(),
                names@.len() == i,
                forall|j: int| 0 <= j < i ==> (#[trigger] names@[j])@ == hyphenated(all_flags()[j]),
            decreases flags.len() - i,
        {
            names.push(flags[i].name());
            i += 1;
        }
        names
    }

    /// Reads a flag from either of its spellings, whatever the case of the letters.
    pub fn from_str(s: &str) -> (parsed: Result<Flags, ()>)
        ensures
            parsed == match flag_named(s@) {
                Some(flag) => Ok::<Flags, ()>(flag),
                None => Err::<Flags, ()>(()),
            },
    {
        let token = chars_of(s);
        let flags = Flags::all();
        let mut i: usize = 0;
        while i < flags.len()
            invariant
                i <= flags.len(),
                flags@ == all_flags(),
                token@ == s@,
                flag_named(s@) == first_spelled(s@, i as int),
            decreases flags.len() - i,
        {
            let flag = flags[i];
            let plain = chars_of(flag.name());
            let capital = chars_of(flag.capitalised_name());
            if eq_ignoring_case(&token, &plain) || eq_ignoring_case(&token, &capital) {
                return Ok(flag);
            }
            i += 1;
        }
        Err(())
    }
}

impl View for Flags {
    type V = Flags;

    open spec fn view(&self) -> Flags {
        *self
    }
}

impl Decode for Flags {
    open spec fn decoded(value: JsonValue) -> Result<Flags, DecodeErrorView> {
        flag_decoded(value)
    }

    /// Decodes a flag from a string value.
    fn decode(value: &RawValue) -> (got: Result<Flags, DecodeError>) {
        match value {
            RawValue::String(token) => match Flags::from_str(token.as_str()) {
                Ok(flag) => Ok(flag),
                Err(_) => Err(DecodeError::Format(FormatError::UnknownFlag(token.clone()))),
            },
            other => Err(DecodeError::Format(FormatError::UnexpectedKind(other.kind()))),
        }
    }
}

/// Two texts that are the same up to case have the same length and, up to case, the same
/// characters at the positions 0, 3, 4 and 9.
proof fn lemma_same_marks(a: Seq<char>, b: Seq<char>)
    ensures
        same_ignoring_case(a, b) ==> {
            &&& a.len() == b.len()
            &&& (a.len() > 0 ==> folded(a[0]) == folded(b[0]))
            &&& (a.len() > 3 ==> folded(a[3]) == folded(b[3]))
            &&& (a.len() > 4 ==> folded(a[4]) == folded(b[4]))
            &&& (a.len() > 9 ==> folded(a[9]) == folded(b[9]))
        },
{
}

/// A spelling of `flag` is a spelling of no other flag.
#[verifier::rlimit(100)]
proof fn lemma_spelling_is_of_one_flag(token: Seq<char>, flag: Flags, other: Flags)
    requires
        token == hyphenated(flag) || token == capitalised(flag),
        other != flag,
    ensures
        !spells(token, other),
{
    reveal_strlit("hidden");
    reveal_strlit("only-in-cursor");
    reveal_strlit("primary-place-result");
    reveal_strlit("always-show");
    reveal_strlit("draw-logistic-overlay");
    reveal_strlit("hide-from-bonus-gui");
    reveal_strlit("player-creation");
    reveal_strlit("placeable-neutral");
    reveal_strlit("placeable-player");
    reveal_strlit("not-rotatable");
    reveal_strlit("hide-alt-info");
    reveal_strlit("goes-to-main-inventory");
    reveal_strlit("not-stackable");
    reveal_strlit("spawnable");
    reveal_strlit("not-repairable");
    reveal_strlit("not-deconstructable");
    reveal_strlit("Hidden");
    reveal_strlit("OnlyInCursor");
    reveal_strlit("PrimaryPlaceResult");
    reveal_strlit("AlwaysShow");
    reveal_strlit("DrawLogisticOverlay");
    reveal_strlit("HideFromBonusGui");
    reveal_strlit("PlayerCreation");
    reveal_strlit("PlaceableNeutral");
    reveal_strlit("PlaceablePlayer");
    reveal_strlit("NotRotatable");
    reveal_strlit("HideAltInfo");
    reveal_strlit("GoesToMainInventory");
    reveal_strlit("NotStackable");
    reveal_strlit("Spawnable");
    reveal_strlit("NotRepairable");
    reveal_strlit("NotDeconstructable");
    lemma_same_marks(token, hyphenated(other));
    lemma_same_marks(token, capitalised(other));
}

/// The two spellings of a flag are synonyms: each names the flag.
pub proof fn lemma_spellings_name_their_flag(flag: Flags)
    ensures
        flag_named(hyphenated(flag)) == Some(flag),
        flag_named(capitalised(flag)) == Some(flag),
{
    lemma_first_spelled_is(hyphenated(flag), flag, 0);
    lemma_first_spelled_is(capitalised(flag), flag, 0);
}

/// From any position up to that of `flag`, the first flag that a spelling of `flag` spells is
/// `flag`.
proof fn lemma_first_spelled_is(token: Seq<char>, flag: Flags, from: int)
    requires
        token == hyphenated(flag) || token == capitalised(flag),
        0 <= from < all_flags().len(),
        exists|at: int| from <= at < all_flags().len() && all_flags()[at] == flag,
    ensures
        first_spelled(token, from) == Some(flag),
    decreases all_flags().len() - from,
{
    let here = all_flags()[from];
    if here == flag {
        assert(same_ignoring_case(token, token));
    } else {
        lemma_spelling_is_of_one_flag(token, flag, here);
        let at = choose|at: int| from <= at < all_flags().len() && all_flags()[at] == flag;
        assert(at > from);
        lemma_first_spelled_is(token, flag, from + 1);
    }
}

} // verus!
