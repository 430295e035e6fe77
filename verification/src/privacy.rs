//! WhatsApp account privacy: last seen, online, photo, about, groups,
//! receipts, calls, and who can message. Values live on the phone, not in
//! `settings.json`.
use std::collections::HashMap;
use vstd::prelude::*;
use crate::model::ChatId;

verus! {

/// Account privacy category shown in Settings.
#[derive(Clone, Copy, Debug, PartialEq, Eq, Hash, Structural)]
pub enum PrivacyKind {
    LastSeen,
    Online,
    Profile,
    About,
    GroupAdd,
    ReadReceipts,
    CallAdd,
    Messages,
}

/// One picker value. Not every value is valid for every category.
#[derive(Clone, Copy, Debug, PartialEq, Eq, Hash, Structural)]
pub enum PrivacyChoice {
    Everyone,
    Contacts,
    Except,
    Nobody,
    SameAsLastSeen,
    ContactsAndKnown,
}

/// A privacy category as the phone's privacy IQ names it.
#[derive(Clone, Debug, PartialEq, Eq)]
pub enum PrivacyCategory {
    Last,
    Online,
    Profile,
    Status,
    GroupAdd,
    ReadReceipts,
    CallAdd,
    Messages,
    DefenseMode,
    Other(String),
}

/// A privacy value as the phone's privacy IQ names it.
#[derive(Clone, Debug, PartialEq, Eq)]
pub enum PrivacyValue {
    All,
    Contacts,
    /// The phone's `none`.
    Nobody,
    ContactBlacklist,
    MatchLastSeen,
    Known,
    Off,
    OnStandard,
    Other(String),
}

/// Every category, in Settings order.
pub open spec fn all_kinds() -> Seq<PrivacyKind> {
    seq![
        PrivacyKind::LastSeen,
        PrivacyKind::Online,
        PrivacyKind::Profile,
        PrivacyKind::About,
        PrivacyKind::GroupAdd,
        PrivacyKind::ReadReceipts,
        PrivacyKind::CallAdd,
        PrivacyKind::Messages,
    ]
}

/// The categories that accept an Except list, in the order the phone lists them.
pub open spec fn except_kinds() -> Seq<PrivacyKind> {
    seq![PrivacyKind::LastSeen, PrivacyKind::Profile, PrivacyKind::About, PrivacyKind::GroupAdd]
}

impl PrivacyKind {
    pub const ALL: [Self; 8] = [
        Self::LastSeen,
        Self::Online,
        Self::Profile,
        Self::About,
        Self::GroupAdd,
        Self::ReadReceipts,
        Self::CallAdd,
        Self::Messages,
    ];

    /// Categories that accept an Except list.
    pub const EXCEPT: [Self; 4] = [Self::LastSeen, Self::Profile, Self::About, Self::GroupAdd];

    pub open spec fn label_text(self) -> Seq<char> {
        match self {
            PrivacyKind::LastSeen => "Last seen"@,
            PrivacyKind::Online => "Online"@,
            PrivacyKind::Profile => "Profile photo"@,
            PrivacyKind::About => "About"@,
            PrivacyKind::GroupAdd => "Who can add me to groups"@,
            PrivacyKind::ReadReceipts => "Read receipts"@,
            PrivacyKind::CallAdd => "Who can call me"@,
            PrivacyKind::Messages => "Who can message me"@,
        }
    }

    pub fn label(self) -> (r: &'static str)
        ensures
            r@ == self.label_text(),
    {
        match self {
            Self::LastSeen => "Last seen",
            Self::Online => "Online",
            Self::Profile => "Profile photo",
            Self::About => "About",
            Self::GroupAdd => "Who can add me to groups",
            Self::ReadReceipts => "Read receipts",
            Self::CallAdd => "Who can call me",
            Self::Messages => "Who can message me",
        }
    }

    pub open spec fn hint_text(self) -> Seq<char> {
        match self {
            PrivacyKind::LastSeen => "When people can see you were last using WhatsApp."@,
            PrivacyKind::Online => "When people can see you are online now."@,
            PrivacyKind::Profile => "Who can see your profile photo."@,
            PrivacyKind::About => "Who can see your About text. This is not the Status tab."@,
            PrivacyKind::GroupAdd => "Who can add you to a group."@,
            PrivacyKind::ReadReceipts =>
                "Everyone or nobody on this WhatsApp account. The Chats switch still applies to this copy."@,
            PrivacyKind::CallAdd => "Who can call you on WhatsApp."@,
            PrivacyKind::Messages => "Who can start a chat with you."@,
        }
    }

    pub fn hint(self) -> (r: &'static str)
        ensures
            r@ == self.hint_text(),
    {
        match self {
            Self::LastSeen => "When people can see you were last using WhatsApp.",
            Self::Online => "When people can see you are online now.",
            Self::Profile => "Who can see your profile photo.",
            Self::About => "Who can see your About text. This is not the Status tab.",
            Self::GroupAdd => "Who can add you to a group.",
            Self::ReadReceipts => {
                "Everyone or nobody on this WhatsApp account. The Chats switch still applies to this copy."
            },
            Self::CallAdd => "Who can call you on WhatsApp.",
            Self::Messages => "Who can start a chat with you.",
        }
    }

    pub open spec fn except_title_text(self) -> Seq<char> {
        match self {
            PrivacyKind::LastSeen => "Hide last seen from"@,
            PrivacyKind::Profile => "Hide profile photo from"@,
            PrivacyKind::About => "Hide About from"@,
            PrivacyKind::GroupAdd => "Who cannot add you to groups"@,
            _ => "Except"@,
        }
    }

    pub fn except_title(self) -> (r: &'static str)
        ensures
            r@ == self.except_title_text(),
    {
        match self {
            Self::LastSeen => "Hide last seen from",
            Self::Profile => "Hide profile photo from",
            Self::About => "Hide About from",
            Self::GroupAdd => "Who cannot add you to groups",
            _ => "Except",
        }
    }

    /// The picker values this category offers, in picker order.
    pub open spec fn choice_list(self) -> Seq<PrivacyChoice> {
        match self {
            PrivacyKind::LastSeen | PrivacyKind::Profile | PrivacyKind::About
            | PrivacyKind::GroupAdd => seq![
                PrivacyChoice::Everyone,
                PrivacyChoice::Contacts,
                PrivacyChoice::Except,
                PrivacyChoice::Nobody,
            ],
            PrivacyKind::Online => seq![PrivacyChoice::Everyone, PrivacyChoice::SameAsLastSeen],
            PrivacyKind::ReadReceipts => seq![PrivacyChoice::Everyone, PrivacyChoice::Nobody],
            PrivacyKind::CallAdd => seq![
                PrivacyChoice::Everyone,
                PrivacyChoice::Contacts,
                PrivacyChoice::ContactsAndKnown,
            ],
            PrivacyKind::Messages => seq![PrivacyChoice::Everyone, PrivacyChoice::Contacts],
        }
    }

    pub fn choices(self) -> (r: &'static [PrivacyChoice])
        ensures
            r@ == self.choice_list(),
    {
        match self {
            Self::LastSeen | Self::Profile | Self::About | Self::GroupAdd => &[
                PrivacyChoice::Everyone,
                PrivacyChoice::Contacts,
                PrivacyChoice::Except,
                PrivacyChoice::Nobody,
            ],
            Self::Online => &[PrivacyChoice::Everyone, PrivacyChoice::SameAsLastSeen],
            Self::ReadReceipts => &[PrivacyChoice::Everyone, PrivacyChoice::Nobody],
            Self::CallAdd => &[
                PrivacyChoice::Everyone,
                PrivacyChoice::Contacts,
                PrivacyChoice::ContactsAndKnown,
            ],
            Self::Messages => &[PrivacyChoice::Everyone, PrivacyChoice::Contacts],
        }
    }

    pub fn allows_except(self) -> (r: bool)
        ensures
            r == except_kinds().contains(self),
    {
        let except = Self::EXCEPT;
        let mut j: usize = 0;
        while j < 4
            invariant
                j <= 4,
                except@ == except_kinds(),
                forall|k: int| 0 <= k < j ==> except_kinds()[k] != self,
            decreases 4 - j,
        {
            if except[j] == self {
                assert(except_kinds()[j as int] == self);
                return true;
            }
            j = j + 1;
        }
        false
    }
}

impl PrivacyKind {
    /// The category's name in MEX privacy-list responses.
    pub open spec fn wire_name_text(self) -> Seq<char> {
        match self {
            PrivacyKind::LastSeen => "last"@,
            PrivacyKind::Online => "online"@,
            PrivacyKind::Profile => "profile"@,
            PrivacyKind::About => "status"@,
            PrivacyKind::GroupAdd => "groupadd"@,
            PrivacyKind::ReadReceipts => "readreceipts"@,
            PrivacyKind::CallAdd => "calladd"@,
            PrivacyKind::Messages => "messages"@,
        }
    }

    pub fn wire_name(self) -> (r: &'static str)
        ensures
            r@ == self.wire_name_text(),
    {
        match self {
            Self::LastSeen => "last",
            Self::Online => "online",
            Self::Profile => "profile",
            Self::About => "status",
            Self::GroupAdd => "groupadd",
            Self::ReadReceipts => "readreceipts",
            Self::CallAdd => "calladd",
            Self::Messages => "messages",
        }
    }

    /// The category the phone's privacy IQ uses for this kind.
    pub open spec fn category(self) -> PrivacyCategory {
        match self {
            PrivacyKind::LastSeen => PrivacyCategory::Last,
            PrivacyKind::Online => PrivacyCategory::Online,
            PrivacyKind::Profile => PrivacyCategory::Profile,
            PrivacyKind::About => PrivacyCategory::Status,
            PrivacyKind::GroupAdd => PrivacyCategory::GroupAdd,
            PrivacyKind::ReadReceipts => PrivacyCategory::ReadReceipts,
            PrivacyKind::CallAdd => PrivacyCategory::CallAdd,
            PrivacyKind::Messages => PrivacyCategory::Messages,
        }
    }

    /// The kind shown in Settings for a category of the phone's, if any.
    pub open spec fn of_category(category: PrivacyCategory) -> Option<PrivacyKind> {
        match category {
            PrivacyCategory::Last => Some(PrivacyKind::LastSeen),
            PrivacyCategory::Online => Some(PrivacyKind::Online),
            PrivacyCategory::Profile => Some(PrivacyKind::Profile),
            PrivacyCategory::Status => Some(PrivacyKind::About),
            PrivacyCategory::GroupAdd => Some(PrivacyKind::GroupAdd),
            PrivacyCategory::ReadReceipts => Some(PrivacyKind::ReadReceipts),
            PrivacyCategory::CallAdd => Some(PrivacyKind::CallAdd),
            PrivacyCategory::Messages => Some(PrivacyKind::Messages),
            PrivacyCategory::DefenseMode | PrivacyCategory::Other(_) => None,
        }
    }

    pub fn from_wire(category: &PrivacyCategory) -> (r: Option<Self>)
        ensures
            r == Self::of_category(*category),
    {
        match category {
            PrivacyCategory::Last => Some(Self::LastSeen),
            PrivacyCategory::Online => Some(Self::Online),
            PrivacyCategory::Profile => Some(Self::Profile),
            PrivacyCategory::Status => Some(Self::About),
            PrivacyCategory::GroupAdd => Some(Self::GroupAdd),
            PrivacyCategory::ReadReceipts => Some(Self::ReadReceipts),
            PrivacyCategory::CallAdd => Some(Self::CallAdd),
            PrivacyCategory::Messages => Some(Self::Messages),
            PrivacyCategory::DefenseMode | PrivacyCategory::Other(_) => None,
        }
    }

    pub fn to_wire(self) -> (r: PrivacyCategory)
        ensures
            r == self.category(),
    {
        match self {
            Self::LastSeen => PrivacyCategory::Last,
            Self::Online => PrivacyCategory::Online,
            Self::Profile => PrivacyCategory::Profile,
            Self::About => PrivacyCategory::Status,
            Self::GroupAdd => PrivacyCategory::GroupAdd,
            Self::ReadReceipts => PrivacyCategory::ReadReceipts,
            Self::CallAdd => PrivacyCategory::CallAdd,
            Self::Messages => PrivacyCategory::Messages,
        }
    }
}

/// No two categories share a wire name.
pub proof fn lemma_wire_names_distinct(a: PrivacyKind, b: PrivacyKind)
    ensures
        a.wire_name_text() == b.wire_name_text() ==> a == b,
{
    reveal_strlit("last");
    reveal_strlit("online");
    reveal_strlit("profile");
    reveal_strlit("status");
    reveal_strlit("groupadd");
    reveal_strlit("readreceipts");
    reveal_strlit("calladd");
    reveal_strlit("messages");
    if a.wire_name_text() == b.wire_name_text() && a != b {
        let x = a.wire_name_text();
        let y = b.wire_name_text();
        assert(x.len() == y.len());
        assert(x[0] == y[0]);
        assert(x[1] == y[1]);
    }
}

/// Every category is listed in `all_kinds`.
proof fn lemma_all_kinds_complete(k: PrivacyKind)
    ensures
        all_kinds().contains(k),
{
    match k {
        PrivacyKind::LastSeen => assert(all_kinds()[0] == k),
        PrivacyKind::Online => assert(all_kinds()[1] == k),
        PrivacyKind::Profile => assert(all_kinds()[2] == k),
        PrivacyKind::About => assert(all_kinds()[3] == k),
        PrivacyKind::GroupAdd => assert(all_kinds()[4] == k),
        PrivacyKind::ReadReceipts => assert(all_kinds()[5] == k),
        PrivacyKind::CallAdd => assert(all_kinds()[6] == k),
        PrivacyKind::Messages => assert(all_kinds()[7] == k),
    }
}

/// The category with this wire name, if there is one.
pub fn kind_from_wire_name(name: &str) -> (r: Option<PrivacyKind>)
    ensures
        forall|k: PrivacyKind| (r == Some(k)) <==> k.wire_name_text() == name@,
        r == named_kind(name@),
{
    let all = PrivacyKind::ALL;
    let mut j: usize = 0;
    while j < 8
        invariant
            j <= 8,
            all@ == all_kinds(),
            forall|i: int| 0 <= i < j ==> all_kinds()[i].wire_name_text() != name@,
        decreases 8 - j,
    {
        let kind = all[j];
        if crate::text::same_text(kind.wire_name(), name) {
            proof {
                assert forall|k: PrivacyKind| (Some(kind) == Some(k)) <==> k.wire_name_text()
                    == name@ by {
                    lemma_wire_names_distinct(k, kind);
                }
                lemma_named_kind(name@, Some(kind));
            }
            return Some(kind);
        }
        j = j + 1;
    }
    proof {
        assert forall|k: PrivacyKind| k.wire_name_text() != name@ by {
            lemma_all_kinds_complete(k);
        }
        lemma_named_kind(name@, None);
    }
    None
}

impl PrivacyChoice {
    pub open spec fn label_text(self) -> Seq<char> {
        match self {
            PrivacyChoice::Everyone => "Everyone"@,
            PrivacyChoice::Contacts => "My contacts"@,
            PrivacyChoice::Except => "Except\u{2026}"@,
            PrivacyChoice::Nobody => "Nobody"@,
            PrivacyChoice::SameAsLastSeen => "Same as last seen"@,
            PrivacyChoice::ContactsAndKnown => "My contacts and other people with my number"@,
        }
    }

    pub fn label(self) -> (r: &'static str)
        ensures
            r@ == self.label_text(),
    {
        match self {
            Self::Everyone => "Everyone",
            Self::Contacts => "My contacts",
            Self::Except => "Except\u{2026}",
            Self::Nobody => "Nobody",
            Self::SameAsLastSeen => "Same as last seen",
            Self::ContactsAndKnown => "My contacts and other people with my number",
        }
    }

    /// The value the phone's privacy IQ uses for this choice.
    pub open spec fn value(self) -> PrivacyValue {
        match self {
            PrivacyChoice::Everyone => PrivacyValue::All,
            PrivacyChoice::Contacts => PrivacyValue::Contacts,
            PrivacyChoice::Except => PrivacyValue::ContactBlacklist,
            PrivacyChoice::Nobody => PrivacyValue::Nobody,
            PrivacyChoice::SameAsLastSeen => PrivacyValue::MatchLastSeen,
            PrivacyChoice::ContactsAndKnown => PrivacyValue::Known,
        }
    }

    /// The picker value for a value of the phone's, if the picker has one.
    pub open spec fn of_value(value: PrivacyValue) -> Option<PrivacyChoice> {
        match value {
            PrivacyValue::All => Some(PrivacyChoice::Everyone),
            PrivacyValue::Contacts => Some(PrivacyChoice::Contacts),
            PrivacyValue::ContactBlacklist => Some(PrivacyChoice::Except),
            PrivacyValue::Nobody => Some(PrivacyChoice::Nobody),
            PrivacyValue::MatchLastSeen => Some(PrivacyChoice::SameAsLastSeen),
            PrivacyValue::Known => Some(PrivacyChoice::ContactsAndKnown),
            PrivacyValue::Off | PrivacyValue::OnStandard | PrivacyValue::Other(_) => None,
        }
    }

    pub fn from_wire(value: &PrivacyValue) -> (r: Option<Self>)
        ensures
            r == Self::of_value(*value),
    {
        match value {
            PrivacyValue::All => Some(Self::Everyone),
            PrivacyValue::Contacts => Some(Self::Contacts),
            PrivacyValue::ContactBlacklist => Some(Self::Except),
            PrivacyValue::Nobody => Some(Self::Nobody),
            PrivacyValue::MatchLastSeen => Some(Self::SameAsLastSeen),
            PrivacyValue::Known => Some(Self::ContactsAndKnown),
            PrivacyValue::Off | PrivacyValue::OnStandard | PrivacyValue::Other(_) => None,
        }
    }

    pub fn to_wire(self) -> (r: Option<PrivacyValue>)
        ensures
            r == Some(self.value()),
    {
        match self {
            Self::Everyone => Some(PrivacyValue::All),
            Self::Contacts => Some(PrivacyValue::Contacts),
            Self::Except => Some(PrivacyValue::ContactBlacklist),
            Self::Nobody => Some(PrivacyValue::Nobody),
            Self::SameAsLastSeen => Some(PrivacyValue::MatchLastSeen),
            Self::ContactsAndKnown => Some(PrivacyValue::Known),
        }
    }
}

impl PrivacyCategory {
    /// Whether the phone accepts `value` for this category.
    pub open spec fn accepts(self, value: PrivacyValue) -> bool {
        match self {
            PrivacyCategory::Last | PrivacyCategory::Profile | PrivacyCategory::Status
            | PrivacyCategory::GroupAdd => value is All || value is Contacts
                || value is ContactBlacklist || value is Nobody,
            PrivacyCategory::ReadReceipts => value is All || value is Nobody,
            PrivacyCategory::Online => value is All || value is MatchLastSeen,
            PrivacyCategory::CallAdd => value is All || value is Known || value is Contacts,
            PrivacyCategory::Messages => value is All || value is Contacts,
            PrivacyCategory::DefenseMode => value is Off || value is OnStandard,
            PrivacyCategory::Other(_) => true,
        }
    }

    /// Whether `value` is valid for this category, as the phone's privacy IQ defines it.
    pub fn is_valid_value(&self, value: &PrivacyValue) -> (r: bool)
        ensures
            r == self.accepts(*value),
    {
        match self {
            Self::Last | Self::Profile | Self::Status | Self::GroupAdd => match value {
                PrivacyValue::All | PrivacyValue::Contacts | PrivacyValue::ContactBlacklist
                | PrivacyValue::Nobody => true,
                _ => false,
            },
            Self::ReadReceipts => match value {
                PrivacyValue::All | PrivacyValue::Nobody => true,
                _ => false,
            },
            Self::Online => match value {
                PrivacyValue::All | PrivacyValue::MatchLastSeen => true,
                _ => false,
            },
            Self::CallAdd => match value {
                PrivacyValue::All | PrivacyValue::Known | PrivacyValue::Contacts => true,
                _ => false,
            },
            Self::Messages => match value {
                PrivacyValue::All | PrivacyValue::Contacts => true,
                _ => false,
            },
            Self::DefenseMode => match value {
                PrivacyValue::Off | PrivacyValue::OnStandard => true,
                _ => false,
            },
            Self::Other(_) => true,
        }
    }
}

/// Whether `choice` is one of `kind`'s picker values.
fn offers(kind: PrivacyKind, choice: PrivacyChoice) -> (r: bool)
    ensures
        r == kind.choice_list().contains(choice),
{
    let list = kind.choices();
    let mut j: usize = 0;
    while j < list.len()
        invariant
            j <= list@.len(),
            list@ == kind.choice_list(),
            forall|i: int| 0 <= i < j ==> list@[i] != choice,
        decreases list@.len() - j,
    {
        if list[j] == choice {
            assert(list@[j as int] == choice);
            return true;
        }
        j = j + 1;
    }
    false
}

/// What a SET of `choice` for `kind` sends to the phone, when the pair is valid.
pub open spec fn wire_set_of(kind: PrivacyKind, choice: PrivacyChoice) -> Option<
    (PrivacyCategory, PrivacyValue),
> {
    if kind.choice_list().contains(choice) && kind.category().accepts(choice.value()) {
        Some((kind.category(), choice.value()))
    } else {
        None
    }
}

pub fn wire_set(kind: PrivacyKind, choice: PrivacyChoice) -> (r: Option<
    (PrivacyCategory, PrivacyValue),
>)
    ensures
        r == wire_set_of(kind, choice),
{
    if !offers(kind, choice) {
        return None;
    }
    let value = choice.to_wire()?;
    let category = kind.to_wire();
    if category.is_valid_value(&value) {
        Some((category, value))
    } else {
        None
    }
}

/// One category's value as the phone reports it.
pub struct PrivacySetting {
    pub category: PrivacyCategory,
    pub value: PrivacyValue,
}

/// The phone's answer to a privacy-settings fetch.
pub struct PrivacySettingsResponse {
    pub settings: Vec<PrivacySetting>,
}

/// The Settings entry for one reported setting: a known category with one of
/// its own picker values.
pub open spec fn setting_entry(setting: PrivacySetting) -> Option<(PrivacyKind, PrivacyChoice)> {
    match (PrivacyKind::of_category(setting.category), PrivacyChoice::of_value(setting.value)) {
        (Some(kind), Some(choice)) => if kind.choice_list().contains(choice) {
            Some((kind, choice))
        } else {
            None
        },
        _ => None,
    }
}

/// The Settings entries of the reported settings, in the phone's order.
pub open spec fn fetched_entries(settings: Seq<PrivacySetting>) -> Seq<(PrivacyKind, PrivacyChoice)> {
    settings.filter_map(|s: PrivacySetting| setting_entry(s))
}

pub fn values_from_response(settings: &PrivacySettingsResponse) -> (r: Vec<
    (PrivacyKind, PrivacyChoice),
>)
    ensures
        r@ == fetched_entries(settings.settings@),
{
    let ghost f = |s: PrivacySetting| setting_entry(s);
    let mut out: Vec<(PrivacyKind, PrivacyChoice)> = Vec::new();
    let mut j: usize = 0;
    proof {
        assert(settings.settings@.take(0) =~= Seq::<PrivacySetting>::empty());
    }
    while j < settings.settings.len()
        invariant
            j <= settings.settings@.len(),
            f == (|s: PrivacySetting| setting_entry(s)),
            out@ == settings.settings@.take(j as int).filter_map(f),
        decreases settings.settings@.len() - j,
    {
        let setting = &settings.settings[j];
        proof {
            settings.settings@.lemma_filter_map_take_succ(f, j as int);
        }
        let kind = PrivacyKind::from_wire(&setting.category);
        let choice = PrivacyChoice::from_wire(&setting.value);
        match (kind, choice) {
            (Some(kind), Some(choice)) => {
                if offers(kind, choice) {
                    out.push((kind, choice));
                }
            },
            _ => {},
        }
        assert(out@ =~= settings.settings@.take(j + 1).filter_map(f));
        j = j + 1;
    }
    assert(settings.settings@.take(j as int) =~= settings.settings@);
    out
}

/// Whether a failed list SET should refetch MEX and retry once.
pub fn retry_list_after_conflict(code: u16, retried: bool) -> (r: bool)
    ensures
        r == (code == 409 && !retried),
{
    code == 409 && !retried
}

/// The ids of `from` that `other` does not hold, in `from`'s order.
pub open spec fn missing_from(from: Seq<Seq<char>>, other: Seq<Seq<char>>) -> Seq<Seq<char>> {
    from.filter(|id: Seq<char>| !other.contains(id))
}

fn not_in(from: &[String], other: &[String]) -> (r: Vec<String>)
    ensures
        r.deep_view() == missing_from(from.deep_view(), other.deep_view()),
{
    let ghost pred = |id: Seq<char>| !other.deep_view().contains(id);
    let ghost all = from.deep_view();
    let mut out: Vec<String> = Vec::new();
    let mut j: usize = 0;
    proof {
        reveal(Seq::filter);
        assert(all.take(0) =~= Seq::<Seq<char>>::empty());
        assert(out.deep_view() =~= Seq::<Seq<char>>::empty());
    }
    while j < from.len()
        invariant
            j <= from@.len(),
            all == from.deep_view(),
            pred == (|id: Seq<char>| !other.deep_view().contains(id)),
            out.deep_view() == all.take(j as int).filter(pred),
        decreases from@.len() - j,
    {
        let id = &from[j];
        proof {
            assert(all.take(j + 1) =~= all.take(j as int).push(id@));
            all.take(j as int).lemma_filter_push(id@, pred);
        }
        if !crate::text::holds_text(other, id.as_str()) {
            let ghost before = out.deep_view();
            out.push(id.clone());
            assert(out.deep_view() =~= before.push(id@));
        }
        j = j + 1;
    }
    assert(all.take(j as int) =~= all);
    out
}

/// The ids to add (picked but not current) and to remove (current but not
/// picked), each in its list's order.
pub fn except_diff(current: &[String], picked: &[String]) -> (r: (Vec<String>, Vec<String>))
    ensures
        r.0.deep_view() == missing_from(picked.deep_view(), current.deep_view()),
        r.1.deep_view() == missing_from(current.deep_view(), picked.deep_view()),
{
    let add = not_in(picked, current);
    let remove = not_in(current, picked);
    (add, remove)
}

// ---------------------------------------------------------------------------
// Account snapshot
// ---------------------------------------------------------------------------

/// Exclusion list for one Except category.
#[derive(Clone, Debug, PartialEq, Eq)]
pub struct PrivacyList {
    pub dhash: String,
    pub ids: Vec<ChatId>,
}

/// An exclusion list as plain values.
pub struct PrivacyListView {
    pub dhash: Seq<char>,
    pub ids: Seq<Seq<char>>,
}

impl View for PrivacyList {
    type V = PrivacyListView;

    open spec fn view(&self) -> PrivacyListView {
        PrivacyListView { dhash: self.dhash@, ids: self.ids.deep_view() }
    }
}

/// The list of a category that has none yet.
pub open spec fn empty_list() -> PrivacyListView {
    PrivacyListView { dhash: Seq::empty(), ids: Seq::empty() }
}

impl Default for PrivacyList {
    fn default() -> (r: Self)
        ensures
            r@ == empty_list(),
    {
        let r = PrivacyList { dhash: String::new(), ids: Vec::new() };
        assert(r.ids.deep_view() =~= Seq::<Seq<char>>::empty());
        r
    }
}

impl PrivacyList {
    /// A copy of this list.
    fn duplicate(&self) -> (r: Self)
        ensures
            r@ == self@,
    {
        let mut ids: Vec<ChatId> = Vec::new();
        let mut j: usize = 0;
        while j < self.ids.len()
            invariant
                j <= self.ids@.len(),
                ids.deep_view() == self.ids.deep_view().take(j as int),
            decreases self.ids@.len() - j,
        {
            let ghost before = ids.deep_view();
            let id = self.ids[j].clone();
            ids.push(id);
            assert(ids.deep_view() =~= before.push(id@));
            assert(self.ids.deep_view().take(j + 1) =~= self.ids.deep_view().take(j as int).push(
                self.ids.deep_view()[j as int],
            ));
            j = j + 1;
        }
        assert(self.ids.deep_view().take(j as int) =~= self.ids.deep_view());
        PrivacyList { dhash: self.dhash.clone(), ids }
    }
}

impl PrivacyKind {
    /// The key under which a snapshot stores this category.
    pub open spec fn slot_of(self) -> u8 {
        match self {
            PrivacyKind::LastSeen => 0,
            PrivacyKind::Online => 1,
            PrivacyKind::Profile => 2,
            PrivacyKind::About => 3,
            PrivacyKind::GroupAdd => 4,
            PrivacyKind::ReadReceipts => 5,
            PrivacyKind::CallAdd => 6,
            PrivacyKind::Messages => 7,
        }
    }

    pub fn slot(self) -> (r: u8)
        ensures
            r == self.slot_of(),
    {
        match self {
            Self::LastSeen => 0,
            Self::Online => 1,
            Self::Profile => 2,
            Self::About => 3,
            Self::GroupAdd => 4,
            Self::ReadReceipts => 5,
            Self::CallAdd => 6,
            Self::Messages => 7,
        }
    }

    /// The first picker value, which stands for a category the phone never reported.
    pub open spec fn first_choice(self) -> PrivacyChoice {
        self.choice_list()[0]
    }
}

/// The snapshot as plain values.
pub struct SnapshotView {
    pub values: Map<PrivacyKind, PrivacyChoice>,
    pub lists: Map<PrivacyKind, PrivacyListView>,
    pub revert: Map<PrivacyKind, (PrivacyChoice, PrivacyListView)>,
    pub fetch_failed: bool,
    pub loaded: bool,
}

/// A snapshot that has loaded nothing.
pub open spec fn empty_snapshot() -> SnapshotView {
    SnapshotView {
        values: Map::empty(),
        lists: Map::empty(),
        revert: Map::empty(),
        fetch_failed: false,
        loaded: false,
    }
}

/// Pairs read into a map; a later pair for the same kind wins.
pub open spec fn pairs_map<V>(pairs: Seq<(PrivacyKind, V)>) -> Map<PrivacyKind, V>
    decreases pairs.len(),
{
    if pairs.len() == 0 {
        Map::empty()
    } else {
        pairs_map(pairs.drop_last()).insert(pairs.last().0, pairs.last().1)
    }
}

/// The lists of fetched pairs as plain values.
pub open spec fn list_pairs(pairs: Seq<(PrivacyKind, PrivacyList)>) -> Seq<
    (PrivacyKind, PrivacyListView),
> {
    pairs.map_values(|p: (PrivacyKind, PrivacyList)| (p.0, p.1@))
}

impl SnapshotView {
    pub open spec fn choice_of(self, kind: PrivacyKind) -> Option<PrivacyChoice> {
        if self.values.contains_key(kind) {
            Some(self.values[kind])
        } else {
            None
        }
    }

    pub open spec fn list_of(self, kind: PrivacyKind) -> PrivacyListView {
        if self.lists.contains_key(kind) {
            self.lists[kind]
        } else {
            empty_list()
        }
    }

    /// A fetch's result taken in: a failure only marks the snapshot; a
    /// success replaces the values and lists and drops every pending revert.
    pub open spec fn fetched(
        self,
        values: Seq<(PrivacyKind, PrivacyChoice)>,
        lists: Seq<(PrivacyKind, PrivacyListView)>,
        failed: bool,
    ) -> Self {
        if failed {
            SnapshotView { fetch_failed: true, ..self }
        } else {
            SnapshotView {
                values: pairs_map(values),
                lists: pairs_map(lists),
                revert: Map::empty(),
                fetch_failed: false,
                loaded: true,
            }
        }
    }

    /// A SET sent: the new value shows at once, and the first pending SET of
    /// the kind keeps what to restore.
    pub open spec fn begun(self, kind: PrivacyKind, choice: PrivacyChoice) -> Self {
        let previous = match self.choice_of(kind) {
            Some(c) => c,
            None => kind.first_choice(),
        };
        SnapshotView {
            values: self.values.insert(kind, choice),
            revert: if self.revert.contains_key(kind) {
                self.revert
            } else {
                self.revert.insert(kind, (previous, self.list_of(kind)))
            },
            ..self
        }
    }

    /// A SET confirmed, with the list's new ids and hash where the phone sent them.
    pub open spec fn finished(
        self,
        kind: PrivacyKind,
        dhash: Option<Seq<char>>,
        ids: Option<Seq<Seq<char>>>,
    ) -> Self {
        let settled = SnapshotView { revert: self.revert.remove(kind), ..self };
        let with_ids = match ids {
            Some(i) => SnapshotView {
                lists: settled.lists.insert(kind, PrivacyListView { ids: i, ..settled.list_of(kind) }),
                ..settled
            },
            None => settled,
        };
        match dhash {
            Some(d) => SnapshotView {
                lists: with_ids.lists.insert(
                    kind,
                    PrivacyListView { dhash: d, ..with_ids.list_of(kind) },
                ),
                ..with_ids
            },
            None => with_ids,
        }
    }

    /// A SET refused: the kept value and list come back.
    pub open spec fn reverted(self, kind: PrivacyKind) -> Self {
        if self.revert.contains_key(kind) {
            SnapshotView {
                values: self.values.insert(kind, self.revert[kind].0),
                lists: self.lists.insert(kind, self.revert[kind].1),
                revert: self.revert.remove(kind),
                ..self
            }
        } else {
            self
        }
    }
}

/// Last confirmed account snapshot, plus in-flight revert. The maps are keyed
/// by `PrivacyKind::slot`.
#[derive(Clone, Debug)]
pub struct Snapshot {
    pub values: HashMap<u8, PrivacyChoice>,
    pub lists: HashMap<u8, PrivacyList>,
    pub revert: HashMap<u8, (PrivacyChoice, PrivacyList)>,
    pub fetch_failed: bool,
    pub loaded: bool,
}

/// A map keyed by slot, read by kind.
pub open spec fn by_kind<V>(m: Map<u8, V>) -> Map<PrivacyKind, V> {
    Map::new(|k: PrivacyKind| m.contains_key(k.slot_of()), |k: PrivacyKind| m[k.slot_of()])
}

/// The lists of a map keyed by slot, read by kind, as plain values.
pub open spec fn lists_by_kind(m: Map<u8, PrivacyList>) -> Map<PrivacyKind, PrivacyListView> {
    Map::new(|k: PrivacyKind| m.contains_key(k.slot_of()), |k: PrivacyKind| m[k.slot_of()]@)
}

/// The reverts of a map keyed by slot, read by kind, as plain values.
pub open spec fn reverts_by_kind(m: Map<u8, (PrivacyChoice, PrivacyList)>) -> Map<
    PrivacyKind,
    (PrivacyChoice, PrivacyListView),
> {
    Map::new(
        |k: PrivacyKind| m.contains_key(k.slot_of()),
        |k: PrivacyKind| (m[k.slot_of()].0, m[k.slot_of()].1@),
    )
}

impl View for Snapshot {
    type V = SnapshotView;

    open spec fn view(&self) -> SnapshotView {
        SnapshotView {
            values: by_kind(self.values@),
            lists: lists_by_kind(self.lists@),
            revert: reverts_by_kind(self.revert@),
            fetch_failed: self.fetch_failed,
            loaded: self.loaded,
        }
    }
}

/// Distinct kinds have distinct slots.
proof fn lemma_slot_injective()
    ensures
        forall|a: PrivacyKind, b: PrivacyKind| #[trigger] a.slot_of() == #[trigger] b.slot_of() ==> a
            == b,
{
}

impl Default for Snapshot {
    fn default() -> (r: Self)
        ensures
            r@ == empty_snapshot(),
    {
        let r = Snapshot {
            values: HashMap::new(),
            lists: HashMap::new(),
            revert: HashMap::new(),
            fetch_failed: false,
            loaded: false,
        };
        assert(r@.values =~= Map::<PrivacyKind, PrivacyChoice>::empty());
        assert(r@.lists =~= Map::<PrivacyKind, PrivacyListView>::empty());
        assert(r@.revert =~= Map::<PrivacyKind, (PrivacyChoice, PrivacyListView)>::empty());
        r
    }
}

impl Snapshot {
    pub fn get(&self, kind: PrivacyKind) -> (r: Option<PrivacyChoice>)
        ensures
            r == self@.choice_of(kind),
    {
        broadcast use vstd::std_specs::hash::group_hash_axioms;

        match self.values.get(&kind.slot()) {
            Some(choice) => Some(*choice),
            None => None,
        }
    }

    pub fn list(&self, kind: PrivacyKind) -> (r: PrivacyList)
        ensures
            r@ == self@.list_of(kind),
    {
        broadcast use vstd::std_specs::hash::group_hash_axioms;

        match self.lists.get(&kind.slot()) {
            Some(list) => list.duplicate(),
            None => PrivacyList::default(),
        }
    }

    pub fn pending(&self, kind: PrivacyKind) -> (r: bool)
        ensures
            r == self@.revert.contains_key(kind),
    {
        broadcast use vstd::std_specs::hash::group_hash_axioms;

        self.revert.contains_key(&kind.slot())
    }
}

proof fn lemma_by_kind_insert<V>(m: Map<u8, V>, kind: PrivacyKind, v: V)
    ensures
        by_kind(m.insert(kind.slot_of(), v)) =~= by_kind(m).insert(kind, v),
{
    lemma_slot_injective();
}

proof fn lemma_lists_insert(m: Map<u8, PrivacyList>, kind: PrivacyKind, l: PrivacyList)
    ensures
        lists_by_kind(m.insert(kind.slot_of(), l)) =~= lists_by_kind(m).insert(kind, l@),
{
    lemma_slot_injective();
}

proof fn lemma_reverts_insert(
    m: Map<u8, (PrivacyChoice, PrivacyList)>,
    kind: PrivacyKind,
    v: (PrivacyChoice, PrivacyList),
)
    ensures
        reverts_by_kind(m.insert(kind.slot_of(), v)) =~= reverts_by_kind(m).insert(
            kind,
            (v.0, v.1@),
        ),
{
    lemma_slot_injective();
}

proof fn lemma_reverts_remove(m: Map<u8, (PrivacyChoice, PrivacyList)>, kind: PrivacyKind)
    ensures
        reverts_by_kind(m.remove(kind.slot_of())) =~= reverts_by_kind(m).remove(kind),
{
    lemma_slot_injective();
}

/// The sample account the demo Settings page shows.
pub open spec fn demo_view(except: Seq<char>) -> SnapshotView {
    SnapshotView {
        values: Map::empty().insert(PrivacyKind::LastSeen, PrivacyChoice::Except).insert(
            PrivacyKind::Online,
            PrivacyChoice::SameAsLastSeen,
        ).insert(PrivacyKind::Profile, PrivacyChoice::Contacts).insert(
            PrivacyKind::About,
            PrivacyChoice::Everyone,
        ).insert(PrivacyKind::GroupAdd, PrivacyChoice::Contacts).insert(
            PrivacyKind::ReadReceipts,
            PrivacyChoice::Everyone,
        ).insert(PrivacyKind::CallAdd, PrivacyChoice::Contacts).insert(
            PrivacyKind::Messages,
            PrivacyChoice::Everyone,
        ),
        lists: Map::empty().insert(
            PrivacyKind::LastSeen,
            PrivacyListView { dhash: "demo"@, ids: seq![except] },
        ),
        revert: Map::empty(),
        fetch_failed: false,
        loaded: true,
    }
}

impl Snapshot {
    pub fn apply_fetch(
        &mut self,
        values: Vec<(PrivacyKind, PrivacyChoice)>,
        lists: Vec<(PrivacyKind, PrivacyList)>,
        failed: bool,
    )
        ensures
            final(self)@ == old(self)@.fetched(values@, list_pairs(lists@), failed),
    {
        broadcast use vstd::std_specs::hash::group_hash_axioms;

        self.fetch_failed = failed;
        if failed && self.loaded {
            return;
        }
        if !failed {
            let mut new_values: HashMap<u8, PrivacyChoice> = HashMap::new();
            let mut j: usize = 0;
            proof {
                assert(by_kind(new_values@) =~= Map::<PrivacyKind, PrivacyChoice>::empty());
                assert(values@.take(0) =~= Seq::<(PrivacyKind, PrivacyChoice)>::empty());
            }
            while j < values.len()
                invariant
                    j <= values@.len(),
                    by_kind(new_values@) == pairs_map(values@.take(j as int)),
                decreases values@.len() - j,
            {
                let (kind, choice) = values[j];
                proof {
                    lemma_by_kind_insert(new_values@, kind, choice);
                    assert(values@.take(j + 1).drop_last() =~= values@.take(j as int));
                }
                new_values.insert(kind.slot(), choice);
                j = j + 1;
            }
            assert(values@.take(j as int) =~= values@);
            let ghost fetched_lists = list_pairs(lists@);
            let mut new_lists: HashMap<u8, PrivacyList> = HashMap::new();
            let mut j: usize = 0;
            proof {
                assert(lists_by_kind(new_lists@) =~= Map::<PrivacyKind, PrivacyListView>::empty());
                assert(fetched_lists.take(0) =~= Seq::<(PrivacyKind, PrivacyListView)>::empty());
            }
            while j < lists.len()
                invariant
                    j <= lists@.len(),
                    fetched_lists == list_pairs(lists@),
                    lists_by_kind(new_lists@) == pairs_map(fetched_lists.take(j as int)),
                decreases lists@.len() - j,
            {
                let kind = lists[j].0;
                let list = lists[j].1.duplicate();
                proof {
                    lemma_lists_insert(new_lists@, kind, list);
                    assert(fetched_lists.take(j + 1).drop_last() =~= fetched_lists.take(j as int));
                    assert(fetched_lists[j as int] == (kind, list@));
                }
                new_lists.insert(kind.slot(), list);
                j = j + 1;
            }
            assert(fetched_lists.take(j as int) =~= fetched_lists);
            self.values = new_values;
            self.lists = new_lists;
            self.loaded = true;
            self.revert.clear();
            assert(self@.revert =~= Map::<PrivacyKind, (PrivacyChoice, PrivacyListView)>::empty());
        }
    }

    pub fn begin_set(&mut self, kind: PrivacyKind, choice: PrivacyChoice)
        ensures
            final(self)@ == old(self)@.begun(kind, choice),
    {
        broadcast use vstd::std_specs::hash::group_hash_axioms;

        let previous = match self.get(kind) {
            Some(current) => current,
            None => kind.choices()[0],
        };
        let list = self.list(kind);
        let slot = kind.slot();
        if !self.revert.contains_key(&slot) {
            proof {
                lemma_reverts_insert(self.revert@, kind, (previous, list));
            }
            self.revert.insert(slot, (previous, list));
        }
        proof {
            lemma_by_kind_insert(self.values@, kind, choice);
        }
        self.values.insert(slot, choice);
    }

    pub fn finish_set(&mut self, kind: PrivacyKind, dhash: Option<String>, ids: Option<Vec<ChatId>>)
        ensures
            final(self)@ == old(self)@.finished(
                kind,
                match dhash {
                    Some(d) => Some(d@),
                    None => None,
                },
                match ids {
                    Some(i) => Some(i.deep_view()),
                    None => None,
                },
            ),
    {
        broadcast use vstd::std_specs::hash::group_hash_axioms;

        let slot = kind.slot();
        proof {
            lemma_reverts_remove(self.revert@, kind);
        }
        self.revert.remove(&slot);
        if let Some(ids) = ids {
            let mut list = self.list(kind);
            list.ids = ids;
            proof {
                lemma_lists_insert(self.lists@, kind, list);
            }
            self.lists.insert(slot, list);
        }
        if let Some(dhash) = dhash {
            let mut list = self.list(kind);
            list.dhash = dhash;
            proof {
                lemma_lists_insert(self.lists@, kind, list);
            }
            self.lists.insert(slot, list);
        }
    }

    pub fn fail_set(&mut self, kind: PrivacyKind)
        ensures
            final(self)@ == old(self)@.reverted(kind),
    {
        broadcast use vstd::std_specs::hash::group_hash_axioms;

        let slot = kind.slot();
        proof {
            lemma_reverts_remove(self.revert@, kind);
        }
        if let Some((choice, list)) = self.revert.remove(&slot) {
            proof {
                lemma_by_kind_insert(self.values@, kind, choice);
                lemma_lists_insert(self.lists@, kind, list);
            }
            self.values.insert(slot, choice);
            self.lists.insert(slot, list);
        } else {
            assert(self@.revert =~= old(self)@.revert);
        }
    }

    /// Sample values for the demo Settings page.
    pub fn demo(except: ChatId) -> (r: Self)
        ensures
            r@ == demo_view(except@),
    {
        broadcast use vstd::std_specs::hash::group_hash_axioms;

        let mut snapshot = Self::default();
        snapshot.loaded = true;
        snapshot.values.insert(PrivacyKind::LastSeen.slot(), PrivacyChoice::Except);
        snapshot.values.insert(PrivacyKind::Online.slot(), PrivacyChoice::SameAsLastSeen);
        snapshot.values.insert(PrivacyKind::Profile.slot(), PrivacyChoice::Contacts);
        snapshot.values.insert(PrivacyKind::About.slot(), PrivacyChoice::Everyone);
        snapshot.values.insert(PrivacyKind::GroupAdd.slot(), PrivacyChoice::Contacts);
        snapshot.values.insert(PrivacyKind::ReadReceipts.slot(), PrivacyChoice::Everyone);
        snapshot.values.insert(PrivacyKind::CallAdd.slot(), PrivacyChoice::Contacts);
        snapshot.values.insert(PrivacyKind::Messages.slot(), PrivacyChoice::Everyone);
        let mut ids: Vec<ChatId> = Vec::new();
        ids.push(except);
        let list = PrivacyList { dhash: crate::text::owned("demo"), ids };
        assert(list@.ids =~= seq![except@]);
        snapshot.lists.insert(PrivacyKind::LastSeen.slot(), list);
        proof {
            lemma_slot_injective();
            assert(snapshot@.values =~= demo_view(except@).values);
            assert(snapshot@.lists =~= demo_view(except@).lists);
        }
        snapshot
    }
}

// ---------------------------------------------------------------------------
// Exclusion lists from MEX
// ---------------------------------------------------------------------------

/// One contact of a MEX privacy list.
pub struct MexContact {
    pub jid: Option<String>,
    pub pn_jid: Option<String>,
}

/// One category's list in a MEX `get_privacy_lists` answer.
pub struct MexContactList {
    pub contacts: Option<Vec<MexContact>>,
    pub dhash: Option<String>,
}

/// One entry of a MEX `get_privacy_lists` answer.
pub struct MexUser {
    pub id: Option<String>,
    pub privacy_contact_list: Option<MexContactList>,
}

/// A MEX `get_privacy_lists` answer.
pub struct MexPrivacyLists {
    pub xwa2_fetch_wa_users: Option<Vec<MexUser>>,
}

/// The category with this wire name, if there is one.
pub open spec fn named_kind(name: Seq<char>) -> Option<PrivacyKind> {
    if exists|k: PrivacyKind| k.wire_name_text() == name {
        Some(choose|k: PrivacyKind| k.wire_name_text() == name)
    } else {
        None
    }
}

/// The id a contact stands for: its phone jid, else its jid, when not empty.
pub open spec fn contact_id(contact: MexContact) -> Option<Seq<char>> {
    let chosen = if contact.pn_jid is Some {
        contact.pn_jid
    } else {
        contact.jid
    };
    match chosen {
        Some(id) => if id@.len() > 0 {
            Some(id@)
        } else {
            None
        },
        None => None,
    }
}

/// The ids of a list's contacts, in order.
pub open spec fn contact_ids(list: MexContactList) -> Seq<Seq<char>> {
    match list.contacts {
        Some(contacts) => contacts@.filter_map(|c: MexContact| contact_id(c)),
        None => Seq::empty(),
    }
}

/// The Except category at this position of the answer.
pub open spec fn except_at(index: int) -> Option<PrivacyKind> {
    if 0 <= index < 4 {
        Some(except_kinds()[index])
    } else {
        None
    }
}

/// The category of the entry at `index`: by its id when that is a known
/// wire name, else by its position.
pub open spec fn user_kind(user: MexUser, index: int) -> Option<PrivacyKind> {
    match user.id {
        Some(id) => match named_kind(id@) {
            Some(kind) => Some(kind),
            None => except_at(index),
        },
        None => except_at(index),
    }
}

/// The list an entry of the answer gives, if it has one and a category.
pub open spec fn user_entry(user: MexUser, index: int) -> Option<(PrivacyKind, PrivacyListView)> {
    match user.privacy_contact_list {
        Some(list) => match user_kind(user, index) {
            Some(kind) => Some(
                (
                    kind,
                    PrivacyListView {
                        dhash: match list.dhash {
                            Some(d) => d@,
                            None => Seq::empty(),
                        },
                        ids: contact_ids(list),
                    },
                ),
            ),
            None => None,
        },
        None => None,
    }
}

/// The lists an answer gives, in its order; a MEX answer that did not parse gives none.
pub open spec fn mex_lists(parsed: Option<MexPrivacyLists>) -> Seq<(PrivacyKind, PrivacyListView)> {
    match parsed {
        Some(answer) => match answer.xwa2_fetch_wa_users {
            Some(users) => Seq::new(users@.len(), |i: int| i).filter_map(
                |i: int| user_entry(users@[i], i),
            ),
            None => Seq::empty(),
        },
        None => Seq::empty(),
    }
}

/// The kind that `kind_from_wire_name` finds is the one `named_kind` names.
proof fn lemma_named_kind(name: Seq<char>, found: Option<PrivacyKind>)
    requires
        forall|k: PrivacyKind| (found == Some(k)) <==> k.wire_name_text() == name,
    ensures
        found == named_kind(name),
{
    if found is Some {
        let k = found->0;
        assert(k.wire_name_text() == name);
        let c = choose|k: PrivacyKind| k.wire_name_text() == name;
        lemma_wire_names_distinct(k, c);
    }
}

fn contact_list_ids(list: &MexContactList) -> (r: Vec<ChatId>)
    ensures
        r.deep_view() == contact_ids(*list),
{
    let mut out: Vec<ChatId> = Vec::new();
    match &list.contacts {
        None => {
            assert(out.deep_view() =~= Seq::<Seq<char>>::empty());
        },
        Some(contacts) => {
            let ghost f = |c: MexContact| contact_id(c);
            let mut j: usize = 0;
            proof {
                assert(contacts@.take(0) =~= Seq::<MexContact>::empty());
                assert(out.deep_view() =~= Seq::<Seq<char>>::empty());
            }
            while j < contacts.len()
                invariant
                    j <= contacts@.len(),
                    f == (|c: MexContact| contact_id(c)),
                    out.deep_view() == contacts@.take(j as int).filter_map(f),
                decreases contacts@.len() - j,
            {
                let contact = &contacts[j];
                proof {
                    contacts@.lemma_filter_map_take_succ(f, j as int);
                }
                let chosen = match &contact.pn_jid {
                    Some(pn) => Some(pn),
                    None => match &contact.jid {
                        Some(jid) => Some(jid),
                        None => None,
                    },
                };
                if let Some(id) = chosen {
                    if !id.as_str().is_empty() {
                        let ghost before = out.deep_view();
                        out.push(id.clone());
                        assert(out.deep_view() =~= before + seq![id@]);
                    }
                }
                assert(out.deep_view() =~= contacts@.take(j + 1).filter_map(f));
                j = j + 1;
            }
            assert(contacts@.take(j as int) =~= contacts@);
        },
    }
    out
}

/// The lists as plain values.
pub open spec fn list_entries(entries: Seq<(PrivacyKind, PrivacyList)>) -> Seq<
    (PrivacyKind, PrivacyListView),
> {
    entries.map_values(|e: (PrivacyKind, PrivacyList)| (e.0, e.1@))
}

/// Reads the Except lists out of a MEX `get_privacy_lists` answer. Category
/// order matches [`PrivacyKind::EXCEPT`]; `None` stands for an answer that did
/// not parse.
pub fn lists_from_mex(parsed: Option<MexPrivacyLists>) -> (r: Vec<(PrivacyKind, PrivacyList)>)
    ensures
        list_entries(r@) == mex_lists(parsed),
{
    let mut out: Vec<(PrivacyKind, PrivacyList)> = Vec::new();
    let users = match &parsed {
        Some(answer) => match &answer.xwa2_fetch_wa_users {
            Some(users) => users,
            None => {
                assert(list_entries(out@) =~= Seq::<(PrivacyKind, PrivacyListView)>::empty());
                return out;
            },
        },
        None => {
            assert(list_entries(out@) =~= Seq::<(PrivacyKind, PrivacyListView)>::empty());
            return out;
        },
    };
    let ghost positions = Seq::new(users@.len(), |i: int| i);
    let ghost f = |i: int| user_entry(users@[i], i);
    let except = PrivacyKind::EXCEPT;
    let mut index: usize = 0;
    proof {
        assert(positions.take(0) =~= Seq::<int>::empty());
        assert(list_entries(out@) =~= Seq::<(PrivacyKind, PrivacyListView)>::empty());
    }
    while index < users.len()
        invariant
            index <= users@.len(),
            positions == Seq::new(users@.len(), |i: int| i),
            f == (|i: int| user_entry(users@[i], i)),
            except@ == except_kinds(),
            list_entries(out@) == positions.take(index as int).filter_map(f),
        decreases users@.len() - index,
    {
        let user = &users[index];
        proof {
            positions.lemma_filter_map_take_succ(f, index as int);
            assert(positions[index as int] == index as int);
        }
        let ghost before = out@;
        if let Some(list) = &user.privacy_contact_list {
            let by_name = match &user.id {
                Some(id) => kind_from_wire_name(id.as_str()),
                None => None,
            };
            let kind = match by_name {
                Some(kind) => Some(kind),
                None => if index < 4 {
                    Some(except[index])
                } else {
                    None
                },
            };
            if let Some(kind) = kind {
                let ids = contact_list_ids(list);
                let dhash = match &list.dhash {
                    Some(d) => d.clone(),
                    None => String::new(),
                };
                let entry = PrivacyList { dhash, ids };
                out.push((kind, entry));
                assert(list_entries(out@) =~= list_entries(before) + seq![(kind, entry@)]);
            }
        }
        assert(list_entries(out@) =~= positions.take(index + 1).filter_map(f));
        index = index + 1;
    }
    assert(positions.take(index as int) =~= positions);
    out
}

// ---------------------------------------------------------------------------
// Laws of the privacy settings
// ---------------------------------------------------------------------------

/// A refused SET puts back the value (or, for a category the phone never
/// reported, its first picker value) and the list that were there before,
/// and leaves every other category alone.
pub proof fn lemma_failed_set_restores(s: SnapshotView, kind: PrivacyKind, choice: PrivacyChoice)
    requires
        !s.revert.contains_key(kind),
    ensures
        ({
            let after = s.begun(kind, choice).reverted(kind);
            &&& after.choice_of(kind) == Some(
                match s.choice_of(kind) {
                    Some(c) => c,
                    None => kind.first_choice(),
                },
            )
            &&& after.list_of(kind) == s.list_of(kind)
            &&& after.revert == s.revert
            &&& forall|other: PrivacyKind|
                other != kind ==> after.choice_of(other) == s.choice_of(other) && after.list_of(
                    other,
                ) == s.list_of(other)
        }),
{
    let after = s.begun(kind, choice).reverted(kind);
    assert(after.revert =~= s.revert);
}

/// However many SETs of one category are in flight, a refusal goes back to
/// what was there before the first.
pub proof fn lemma_first_set_is_kept(
    s: SnapshotView,
    kind: PrivacyKind,
    first: PrivacyChoice,
    second: PrivacyChoice,
)
    requires
        !s.revert.contains_key(kind),
    ensures
        s.begun(kind, first).begun(kind, second).reverted(kind) == s.begun(kind, first).reverted(
            kind,
        ),
{
    let once = s.begun(kind, first).reverted(kind);
    let twice = s.begun(kind, first).begun(kind, second).reverted(kind);
    assert(once.values =~= twice.values);
    assert(once.lists =~= twice.lists);
    assert(once.revert =~= twice.revert);
}

/// A confirmed SET is no longer pending and keeps the value it set.
pub proof fn lemma_finished_set_settles(
    s: SnapshotView,
    kind: PrivacyKind,
    choice: PrivacyChoice,
    dhash: Option<Seq<char>>,
    ids: Option<Seq<Seq<char>>>,
)
    ensures
        !s.begun(kind, choice).finished(kind, dhash, ids).revert.contains_key(kind),
        s.begun(kind, choice).finished(kind, dhash, ids).choice_of(kind) == Some(choice),
{
}

/// A confirmed SET takes the ids and the hash the phone sent, each where it
/// sent one, and keeps the list's own otherwise; the value shown stays, the
/// kind is no longer pending, and every other category is left alone.
pub proof fn lemma_finished_set_takes_the_phone_list(
    s: SnapshotView,
    kind: PrivacyKind,
    dhash: Option<Seq<char>>,
    ids: Option<Seq<Seq<char>>>,
)
    ensures
        s.finished(kind, dhash, ids).list_of(kind).ids == (match ids {
            Some(i) => i,
            None => s.list_of(kind).ids,
        }),
        s.finished(kind, dhash, ids).list_of(kind).dhash == (match dhash {
            Some(d) => d,
            None => s.list_of(kind).dhash,
        }),
        s.finished(kind, dhash, ids).choice_of(kind) == s.choice_of(kind),
        !s.finished(kind, dhash, ids).revert.contains_key(kind),
        forall|other: PrivacyKind|
            other != kind ==> s.finished(kind, dhash, ids).list_of(other) == s.list_of(other)
                && s.finished(kind, dhash, ids).choice_of(other) == s.choice_of(other)
                && s.finished(kind, dhash, ids).revert.contains_key(other)
                == s.revert.contains_key(other),
{
}

/// A failed fetch after a load keeps what was loaded; a successful fetch
/// loads and leaves nothing pending.
pub proof fn lemma_fetch_outcomes(
    s: SnapshotView,
    values: Seq<(PrivacyKind, PrivacyChoice)>,
    lists: Seq<(PrivacyKind, PrivacyListView)>,
)
    ensures
        s.fetched(values, lists, true) == (SnapshotView { fetch_failed: true, ..s }),
        s.fetched(values, lists, false).loaded,
        s.fetched(values, lists, false).revert.is_empty(),
{
    assert(s.fetched(values, lists, false).revert =~= Map::<
        PrivacyKind,
        (PrivacyChoice, PrivacyListView),
    >::empty());
}

/// The map of some pairs holds a kind just when a pair names it, and then
/// with the value of the last such pair.
proof fn lemma_pairs_map_last_wins<V>(pairs: Seq<(PrivacyKind, V)>, kind: PrivacyKind)
    ensures
        pairs_map(pairs).contains_key(kind) <==> exists|i: int|
            0 <= i < pairs.len() && (#[trigger] pairs[i]).0 == kind,
        forall|i: int|
            0 <= i < pairs.len() && (#[trigger] pairs[i]).0 == kind && (forall|j: int|
                i < j < pairs.len() ==> (#[trigger] pairs[j]).0 != kind) ==> pairs_map(pairs)[kind]
                == pairs[i].1,
    decreases pairs.len(),
{
    if pairs.len() > 0 {
        let rest = pairs.drop_last();
        let n = pairs.len() - 1;
        lemma_pairs_map_last_wins(rest, kind);
        assert forall|i: int| 0 <= i < n implies #[trigger] rest[i] == pairs[i] by {}
        if pairs[n].0 == kind {
            assert(pairs_map(pairs).contains_key(kind));
            assert forall|i: int|
                0 <= i < pairs.len() && (#[trigger] pairs[i]).0 == kind && (forall|j: int|
                    i < j < pairs.len() ==> (#[trigger] pairs[j]).0 != kind) implies pairs_map(
                pairs,
            )[kind] == pairs[i].1 by {
                if i < n {
                    assert(pairs[n].0 != kind);
                }
            }
        } else {
            assert(pairs_map(pairs).contains_key(kind) == pairs_map(rest).contains_key(kind));
            if pairs_map(pairs).contains_key(kind) {
                let i = choose|i: int| 0 <= i < rest.len() && (#[trigger] rest[i]).0 == kind;
                assert(pairs[i].0 == kind);
            }
            if exists|i: int| 0 <= i < pairs.len() && (#[trigger] pairs[i]).0 == kind {
                let i = choose|i: int| 0 <= i < pairs.len() && (#[trigger] pairs[i]).0 == kind;
                assert(rest[i].0 == kind);
            }
            assert forall|i: int|
                0 <= i < pairs.len() && (#[trigger] pairs[i]).0 == kind && (forall|j: int|
                    i < j < pairs.len() ==> (#[trigger] pairs[j]).0 != kind) implies pairs_map(
                pairs,
            )[kind] == pairs[i].1 by {
                assert(i < n);
                assert(rest[i].0 == kind);
                assert forall|j: int| i < j < rest.len() implies (#[trigger] rest[j]).0 != kind by {
                    assert(pairs[j].0 != kind);
                }
            }
        }
    }
}

/// After a successful fetch each category shows the value and the list of
/// the last pair the fetch gave for it, the list whole (its hash and all its
/// ids), and a category the fetch gave nothing for shows no value and an
/// empty list.
pub proof fn lemma_fetch_shows_what_was_fetched(
    s: SnapshotView,
    values: Seq<(PrivacyKind, PrivacyChoice)>,
    lists: Seq<(PrivacyKind, PrivacyList)>,
    kind: PrivacyKind,
)
    ensures
        forall|i: int|
            0 <= i < lists.len() && (#[trigger] lists[i]).0 == kind && (forall|j: int|
                i < j < lists.len() ==> (#[trigger] lists[j]).0 != kind) ==> s.fetched(
                values,
                list_pairs(lists),
                false,
            ).list_of(kind) == lists[i].1@,
        (forall|i: int| 0 <= i < lists.len() ==> (#[trigger] lists[i]).0 != kind) ==> s.fetched(
            values,
            list_pairs(lists),
            false,
        ).list_of(kind) == empty_list(),
        forall|i: int|
            0 <= i < values.len() && (#[trigger] values[i]).0 == kind && (forall|j: int|
                i < j < values.len() ==> (#[trigger] values[j]).0 != kind) ==> s.fetched(
                values,
                list_pairs(lists),
                false,
            ).choice_of(kind) == Some(values[i].1),
        (forall|i: int| 0 <= i < values.len() ==> (#[trigger] values[i]).0 != kind) ==> s.fetched(
            values,
            list_pairs(lists),
            false,
        ).choice_of(kind) is None,
{
    let views = list_pairs(lists);
    let after = s.fetched(values, views, false);
    lemma_pairs_map_last_wins(values, kind);
    lemma_pairs_map_last_wins(views, kind);
    assert forall|i: int| 0 <= i < lists.len() implies #[trigger] views[i] == (
        lists[i].0,
        lists[i].1@,
    ) by {}
    assert forall|i: int|
        0 <= i < lists.len() && (#[trigger] lists[i]).0 == kind && (forall|j: int|
            i < j < lists.len() ==> (#[trigger] lists[j]).0 != kind) implies after.list_of(kind)
        == lists[i].1@ by {
        assert(views[i].0 == kind);
        assert forall|j: int| i < j < views.len() implies (#[trigger] views[j]).0 != kind by {
            assert(lists[j].0 != kind);
        }
    }
    if forall|i: int| 0 <= i < lists.len() ==> (#[trigger] lists[i]).0 != kind {
        if after.lists.contains_key(kind) {
            let i = choose|i: int| 0 <= i < views.len() && (#[trigger] views[i]).0 == kind;
            assert(lists[i].0 != kind);
        }
    }
}

/// Each category accepts exactly its own picker values.
pub proof fn lemma_each_category_accepts_its_choices(kind: PrivacyKind, choice: PrivacyChoice)
    ensures
        wire_set_of(kind, choice) is Some <==> kind.choice_list().contains(choice),
{
    if kind.choice_list().contains(choice) {
        let i = choose|i: int| 0 <= i < kind.choice_list().len() && kind.choice_list()[i] == choice;
        assert(kind.category().accepts(choice.value()));
    }
}

/// Every category and every picker value survive the trip to the wire and back.
pub proof fn lemma_wire_round_trip(kind: PrivacyKind, choice: PrivacyChoice)
    ensures
        PrivacyKind::of_category(kind.category()) == Some(kind),
        PrivacyChoice::of_value(choice.value()) == Some(choice),
        named_kind(kind.wire_name_text()) == Some(kind),
{
    let c = choose|k: PrivacyKind| k.wire_name_text() == kind.wire_name_text();
    lemma_wire_names_distinct(c, kind);
}

/// A SET of one of a category's own picker values is always sent, and what
/// it sends reads back, on the phone's side, as that very category and that
/// very value: the phone is never told anything but what the user picked.
pub proof fn lemma_set_sends_the_picked_value(kind: PrivacyKind, choice: PrivacyChoice)
    ensures
        kind.choice_list().contains(choice) ==> wire_set_of(kind, choice) is Some,
        wire_set_of(kind, choice) is Some ==> PrivacyKind::of_category(
            wire_set_of(kind, choice).unwrap().0,
        ) == Some(kind),
        wire_set_of(kind, choice) is Some ==> PrivacyChoice::of_value(
            wire_set_of(kind, choice).unwrap().1,
        ) == Some(choice),
{
    lemma_each_category_accepts_its_choices(kind, choice);
    lemma_wire_round_trip(kind, choice);
}

/// The categories that allow an Except list are those that offer Except.
pub proof fn lemma_except_kinds_offer_except(kind: PrivacyKind)
    ensures
        except_kinds().contains(kind) <==> kind.choice_list().contains(PrivacyChoice::Except),
{
    if except_kinds().contains(kind) {
        assert(kind.choice_list()[2] == PrivacyChoice::Except);
    }
    if kind.choice_list().contains(PrivacyChoice::Except) {
        match kind {
            PrivacyKind::LastSeen => assert(except_kinds()[0] == kind),
            PrivacyKind::Profile => assert(except_kinds()[1] == kind),
            PrivacyKind::About => assert(except_kinds()[2] == kind),
            PrivacyKind::GroupAdd => assert(except_kinds()[3] == kind),
            _ => {
                let i = choose|i: int|
                    0 <= i < kind.choice_list().len() && kind.choice_list()[i]
                        == PrivacyChoice::Except;
            },
        }
    }
}

/// Applying the diff to the current list gives the picked list: what is
/// added was not there, what is removed was, and the rest stays.
pub proof fn lemma_except_diff_applies(current: Seq<Seq<char>>, picked: Seq<Seq<char>>)
    ensures
        ({
            let add = missing_from(picked, current);
            let remove = missing_from(current, picked);
            &&& forall|id: Seq<char>| add.contains(id) ==> !current.contains(id)
            &&& forall|id: Seq<char>| remove.contains(id) ==> current.contains(id)
            &&& forall|id: Seq<char>|
                (current.contains(id) && !remove.contains(id)) || add.contains(id)
                    <==> picked.contains(id)
        }),
{
    broadcast use vstd::seq_lib::group_filter_ensures;

    let add = missing_from(picked, current);
    let remove = missing_from(current, picked);
    let not_current = |id: Seq<char>| !current.contains(id);
    let not_picked = |id: Seq<char>| !picked.contains(id);
    assert forall|id: Seq<char>| add.contains(id) implies !current.contains(id) by {
        let k = choose|k: int| 0 <= k < add.len() && add[k] == id;
        picked.lemma_filter_pred(not_current, k);
    }
    assert forall|id: Seq<char>| remove.contains(id) implies current.contains(id) by {
        current.lemma_filter_contains_rev(not_picked, id);
    }
    assert forall|id: Seq<char>|
        (current.contains(id) && !remove.contains(id)) || add.contains(id)
            <==> picked.contains(id) by {
        if add.contains(id) {
            picked.lemma_filter_contains_rev(not_current, id);
        }
        if picked.contains(id) && !current.contains(id) {
            let k = choose|k: int| 0 <= k < picked.len() && picked[k] == id;
            picked.lemma_filter_contains(not_current, k);
        }
        if current.contains(id) && !picked.contains(id) {
            let k = choose|k: int| 0 <= k < current.len() && current[k] == id;
            current.lemma_filter_contains(not_picked, k);
        }
        if remove.contains(id) {
            let k = choose|k: int| 0 <= k < remove.len() && remove[k] == id;
            current.lemma_filter_pred(not_picked, k);
        }
    }
}

/// A fetch only ever shows a category with one of its own picker values.
pub proof fn lemma_fetched_values_are_offered(settings: Seq<PrivacySetting>)
    ensures
        forall|i: int|
            0 <= i < fetched_entries(settings).len() ==> (#[trigger] fetched_entries(
                settings,
            )[i]).0.choice_list().contains(fetched_entries(settings)[i].1),
    decreases settings.len(),
{
    let f = |s: PrivacySetting| setting_entry(s);
    if settings.len() > 0 {
        lemma_fetched_values_are_offered(settings.drop_last());
        let rest = settings.drop_last().filter_map(f);
        assert forall|i: int| 0 <= i < fetched_entries(settings).len() implies (
        #[trigger] fetched_entries(settings)[i]).0.choice_list().contains(
            fetched_entries(settings)[i].1,
        ) by {
            if i < rest.len() {
                assert(fetched_entries(settings)[i] == rest[i]);
                assert(rest == fetched_entries(settings.drop_last()));
            }
        }
    }
}

/// Whether a contact of a MEX list stands for an id.
pub open spec fn has_contact_id(contact: MexContact) -> bool {
    contact_id(contact) is Some
}

/// Reading ids contact by contact is keeping the contacts that have one and
/// reading each as its id.
proof fn lemma_ids_follow_contacts(cs: Seq<MexContact>)
    ensures
        cs.filter_map(|c: MexContact| contact_id(c)) == cs.filter(
            |c: MexContact| has_contact_id(c),
        ).map_values(|c: MexContact| contact_id(c).unwrap()),
    decreases cs.len(),
{
    reveal(Seq::filter);
    let f = |c: MexContact| contact_id(c);
    let p = |c: MexContact| has_contact_id(c);
    let g = |c: MexContact| contact_id(c).unwrap();
    if cs.len() > 0 {
        let rest = cs.drop_last();
        lemma_ids_follow_contacts(rest);
        assert(rest.filter_map(f) == rest.filter(p).map_values(g));
        if p(cs.last()) {
            assert(cs.filter(p) == rest.filter(p).push(cs.last()));
            assert(rest.filter(p).push(cs.last()).map_values(g) =~= rest.filter(p).map_values(
                g,
            ).push(g(cs.last())));
            assert(cs.filter_map(f) =~= rest.filter_map(f) + seq![g(cs.last())]);
        } else {
            assert(cs.filter(p) == rest.filter(p));
            assert(cs.filter_map(f) == rest.filter_map(f));
        }
    } else {
        assert(cs.filter(p) =~= Seq::<MexContact>::empty());
        assert(cs.filter_map(f) =~= Seq::<Seq<char>>::empty());
    }
}

/// The ids of a MEX list are those of all its contacts that have one, in the
/// list's order: every such contact gives its id, so their number is the
/// number of such contacts, and no id comes from anywhere else.
pub proof fn lemma_every_contact_id_is_kept(list: MexContactList)
    ensures
        list.contacts is None ==> contact_ids(list).len() == 0,
        list.contacts is Some ==> contact_ids(list) == list.contacts.unwrap()@.filter(
            |c: MexContact| has_contact_id(c),
        ).map_values(|c: MexContact| contact_id(c).unwrap()),
        list.contacts is Some ==> contact_ids(list).len() == list.contacts.unwrap()@.filter(
            |c: MexContact| has_contact_id(c),
        ).len(),
        list.contacts is Some ==> forall|i: int|
            0 <= i < list.contacts.unwrap()@.len() && has_contact_id(
                #[trigger] list.contacts.unwrap()@[i],
            ) ==> contact_ids(list).contains(contact_id(list.contacts.unwrap()@[i]).unwrap()),
        forall|id: Seq<char>|
            #[trigger] contact_ids(list).contains(id) ==> list.contacts is Some && exists|i: int|
                0 <= i < list.contacts.unwrap()@.len() && contact_id(
                    #[trigger] list.contacts.unwrap()@[i],
                ) == Some(id),
{
    broadcast use vstd::seq_lib::group_filter_ensures;

    if list.contacts is Some {
        let cs = list.contacts.unwrap()@;
        let f = |c: MexContact| contact_id(c);
        let p = |c: MexContact| has_contact_id(c);
        let g = |c: MexContact| contact_id(c).unwrap();
        lemma_ids_follow_contacts(cs);
        let kept = cs.filter(p);
        assert forall|i: int| 0 <= i < cs.len() && has_contact_id(#[trigger] cs[i]) implies contact_ids(
            list,
        ).contains(contact_id(cs[i]).unwrap()) by {
            cs.lemma_filter_contains(p, i);
            let k = choose|k: int| 0 <= k < kept.len() && kept[k] == cs[i];
            assert(kept.map_values(g)[k] == g(cs[i]));
        }
        assert forall|id: Seq<char>| #[trigger] contact_ids(list).contains(id) implies exists|i: int|
            0 <= i < cs.len() && contact_id(#[trigger] cs[i]) == Some(id) by {
            cs.lemma_filter_map_contains(f, id);
            let t = choose|t: MexContact| #[trigger] cs.contains(t) && f(t) == Some(id);
            let i = choose|i: int| 0 <= i < cs.len() && cs[i] == t;
            assert(contact_id(cs[i]) == Some(id));
        }
    } else {
        assert forall|id: Seq<char>| #[trigger] contact_ids(list).contains(id) implies false by {}
    }
}

/// A contact stands for its phone jid when it has one, and for its jid only
/// when it has no phone jid; an empty id stands for nothing.
pub proof fn lemma_contact_id_prefers_phone_jid(contact: MexContact)
    ensures
        contact.pn_jid matches Some(pn) ==> contact_id(contact) == (if pn@.len() > 0 {
            Some(pn@)
        } else {
            None::<Seq<char>>
        }),
        contact.pn_jid is None ==> contact_id(contact) == (match contact.jid {
            Some(jid) => if jid@.len() > 0 {
                Some(jid@)
            } else {
                None::<Seq<char>>
            },
            None => None,
        }),
        contact_id(contact) matches Some(id) ==> id.len() > 0,
{
}

/// An entry of a MEX answer with a list is read as the category its id names,
/// when the id is a category's wire name, and otherwise as the Except category
/// at its position (none past the fourth); it carries the list's hash (empty
/// when absent) and the ids of its contacts. An entry without a list gives
/// nothing.
pub proof fn lemma_mex_entry(user: MexUser, index: int, kind: PrivacyKind)
    ensures
        user.privacy_contact_list is None ==> user_entry(user, index) is None,
        user.privacy_contact_list matches Some(list) ==> ({
            let view = PrivacyListView {
                dhash: match list.dhash {
                    Some(d) => d@,
                    None => Seq::empty(),
                },
                ids: contact_ids(list),
            };
            &&& (user.id matches Some(id) && id@ == kind.wire_name_text()) ==> user_entry(
                user,
                index,
            ) == Some((kind, view))
            &&& (forall|k: PrivacyKind|
                user.id matches Some(id) ==> id@ != #[trigger] k.wire_name_text()) ==> user_entry(
                user,
                index,
            ) == (if 0 <= index < 4 {
                Some((except_kinds()[index], view))
            } else {
                None
            })
        }),
{
    lemma_wire_round_trip(kind, PrivacyChoice::Everyone);
    if user.id is Some && (forall|k: PrivacyKind| user.id matches Some(id) ==> id@
        != #[trigger] k.wire_name_text()) {
        let id = user.id.unwrap();
        assert(named_kind(id@) is None);
    }
}

/// What `f` makes of an element, when it makes something, is kept.
proof fn lemma_filter_map_keeps<A, B>(s: Seq<A>, f: spec_fn(A) -> Option<B>, i: int)
    requires
        0 <= i < s.len(),
        f(s[i]) is Some,
    ensures
        s.filter_map(f).contains(f(s[i]).unwrap()),
    decreases s.len(),
{
    let rest = s.drop_last();
    if i == s.len() - 1 {
        assert(s.filter_map(f) == rest.filter_map(f) + seq![f(s[i]).unwrap()]);
        assert(s.filter_map(f)[rest.filter_map(f).len() as int] == f(s[i]).unwrap());
    } else {
        assert(rest[i] == s[i]);
        lemma_filter_map_keeps(rest, f, i);
        let k = choose|k: int|
            0 <= k < rest.filter_map(f).len() && rest.filter_map(f)[k] == f(s[i]).unwrap();
        match f(s.last()) {
            Some(x) => {
                assert(s.filter_map(f) == rest.filter_map(f) + seq![x]);
                assert(s.filter_map(f)[k] == rest.filter_map(f)[k]);
            },
            None => {
                assert(s.filter_map(f) == rest.filter_map(f));
            },
        }
    }
}

/// A reported setting of a known category, with a value the category offers,
/// is shown as that category and that value; every other reported setting is
/// left out, and what is shown comes from what was reported.
pub proof fn lemma_every_offered_setting_is_shown(settings: Seq<PrivacySetting>)
    ensures
        forall|i: int, kind: PrivacyKind, choice: PrivacyChoice|
            0 <= i < settings.len() && PrivacyKind::of_category(#[trigger] settings[i].category)
                == Some(kind) && PrivacyChoice::of_value(settings[i].value) == Some(choice)
                && #[trigger] kind.choice_list().contains(choice) ==> fetched_entries(
                settings,
            ).contains((kind, choice)),
        forall|entry: (PrivacyKind, PrivacyChoice)|
            #[trigger] fetched_entries(settings).contains(entry) ==> exists|i: int|
                0 <= i < settings.len() && PrivacyKind::of_category(
                    #[trigger] settings[i].category,
                ) == Some(entry.0) && PrivacyChoice::of_value(settings[i].value) == Some(entry.1)
                    && entry.0.choice_list().contains(entry.1),
{
    let f = |s: PrivacySetting| setting_entry(s);
    assert forall|i: int, kind: PrivacyKind, choice: PrivacyChoice|
        0 <= i < settings.len() && PrivacyKind::of_category(#[trigger] settings[i].category)
            == Some(kind) && PrivacyChoice::of_value(settings[i].value) == Some(choice)
            && #[trigger] kind.choice_list().contains(choice) implies fetched_entries(
        settings,
    ).contains((kind, choice)) by {
        assert(f(settings[i]) == Some((kind, choice)));
        lemma_filter_map_keeps(settings, f, i);
    }
    assert forall|entry: (PrivacyKind, PrivacyChoice)| #[trigger]
        fetched_entries(settings).contains(entry) implies exists|i: int|
        0 <= i < settings.len() && PrivacyKind::of_category(#[trigger] settings[i].category)
            == Some(entry.0) && PrivacyChoice::of_value(settings[i].value) == Some(entry.1)
            && entry.0.choice_list().contains(entry.1) by {
        settings.lemma_filter_map_contains(f, entry);
        let t = choose|t: PrivacySetting| #[trigger] settings.contains(t) && f(t) == Some(entry);
        let i = choose|i: int| 0 <= i < settings.len() && settings[i] == t;
        assert(settings[i].category == t.category);
    }
}

/// One change a user or the phone makes to the snapshot between fetches.
pub enum SnapshotStep {
    Begin(PrivacyKind, PrivacyChoice),
    Finish(PrivacyKind, Option<Seq<char>>, Option<Seq<Seq<char>>>),
    Fail(PrivacyKind),
}

impl SnapshotStep {
    /// The category the step is about.
    pub open spec fn kind(self) -> PrivacyKind {
        match self {
            SnapshotStep::Begin(k, _) => k,
            SnapshotStep::Finish(k, _, _) => k,
            SnapshotStep::Fail(k) => k,
        }
    }
}

impl SnapshotView {
    /// The snapshot after one step (`begin_set`, `finish_set` or `fail_set`).
    pub open spec fn stepped(self, step: SnapshotStep) -> Self {
        match step {
            SnapshotStep::Begin(k, c) => self.begun(k, c),
            SnapshotStep::Finish(k, d, i) => self.finished(k, d, i),
            SnapshotStep::Fail(k) => self.reverted(k),
        }
    }

    /// The snapshot after the steps, in order.
    pub open spec fn run(self, steps: Seq<SnapshotStep>) -> Self
        decreases steps.len(),
    {
        if steps.len() == 0 {
            self
        } else {
            self.run(steps.drop_last()).stepped(steps.last())
        }
    }
}

/// Whether the steps begin a SET of `kind`.
pub open spec fn begins(steps: Seq<SnapshotStep>, kind: PrivacyKind) -> bool {
    exists|i: int| 0 <= i < steps.len() && (#[trigger] steps[i]) is Begin && steps[i].kind() == kind
}

/// What a refusal of `kind` restores: its value (or first picker value) and its list.
pub open spec fn restore_point(s: SnapshotView, kind: PrivacyKind) -> (PrivacyChoice, PrivacyListView) {
    (
        match s.choice_of(kind) {
            Some(c) => c,
            None => kind.first_choice(),
        },
        s.list_of(kind),
    )
}

/// Steps on other categories, and SETs of `kind`, leave what a refusal of
/// `kind` restores: untouched before the first SET, kept from then on.
proof fn lemma_run_keeps_restore_point(s: SnapshotView, steps: Seq<SnapshotStep>, kind: PrivacyKind)
    requires
        !s.revert.contains_key(kind),
        forall|i: int|
            0 <= i < steps.len() && (#[trigger] steps[i]).kind() == kind ==> steps[i] is Begin,
    ensures
        begins(steps, kind) ==> s.run(steps).revert.contains_key(kind) && s.run(steps).revert[kind]
            == restore_point(s, kind),
        !begins(steps, kind) ==> !s.run(steps).revert.contains_key(kind) && s.run(steps).choice_of(
            kind,
        ) == s.choice_of(kind) && s.run(steps).list_of(kind) == s.list_of(kind),
    decreases steps.len(),
{
    if steps.len() > 0 {
        let rest = steps.drop_last();
        assert forall|i: int|
            0 <= i < rest.len() && (#[trigger] rest[i]).kind() == kind implies rest[i] is Begin by {
            assert(rest[i] == steps[i]);
        }
        lemma_run_keeps_restore_point(s, rest, kind);
        let last = steps.last();
        assert(steps[steps.len() - 1] == last);
        if begins(rest, kind) {
            let i = choose|i: int|
                0 <= i < rest.len() && (#[trigger] rest[i]) is Begin && rest[i].kind() == kind;
            assert(steps[i] == rest[i]);
        }
        if begins(steps, kind) && !(last is Begin && last.kind() == kind) {
            let i = choose|i: int|
                0 <= i < steps.len() && (#[trigger] steps[i]) is Begin && steps[i].kind() == kind;
            assert(i < steps.len() - 1);
            assert(rest[i] == steps[i]);
        }
    }
}

/// However many SETs of one category are made, interleaved with SETs,
/// confirmations and refusals of other categories, a refusal of it restores
/// the value (or, for a category the phone never reported, its first picker
/// value) and the list that were there before the first, and leaves it not pending.
pub proof fn lemma_refusal_restores_before_first_set(
    s: SnapshotView,
    steps: Seq<SnapshotStep>,
    kind: PrivacyKind,
)
    requires
        !s.revert.contains_key(kind),
        begins(steps, kind),
        forall|i: int|
            0 <= i < steps.len() && (#[trigger] steps[i]).kind() == kind ==> steps[i] is Begin,
    ensures
        s.run(steps).reverted(kind).choice_of(kind) == Some(restore_point(s, kind).0),
        s.run(steps).reverted(kind).list_of(kind) == s.list_of(kind),
        !s.run(steps).reverted(kind).revert.contains_key(kind),
{
    lemma_run_keeps_restore_point(s, steps, kind);
}

} // verus!
