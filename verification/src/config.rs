//! The persisted settings: window rules, slot assignments and preferences.
use crate::model::{AspectRatio, CandidateDisposition, PokerColumnAssignment, PokerSlotId, SignatureView, WindowSignature, same_signature};
use vstd::prelude::*;
use vstd::string::*;

verus! {

/// The version that a loaded configuration is brought up to.
pub const CONFIG_VERSION: u32 = 8;

/// What happens to a newly seen ordinary (non-poker) window.
#[derive(Clone, Copy, Debug, PartialEq, Eq, Structural)]
pub enum ApplicationDefault {
    Ignored,
    FreeSpace,
    TopRight,
}

pub open spec fn default_disposition(mode: ApplicationDefault) -> CandidateDisposition {
    match mode {
        ApplicationDefault::Ignored => CandidateDisposition::Ignored,
        ApplicationDefault::FreeSpace => CandidateDisposition::FreeSpace,
        ApplicationDefault::TopRight => CandidateDisposition::TopRight,
    }
}

impl ApplicationDefault {
    pub fn disposition(self) -> (r: CandidateDisposition)
        ensures
            r == default_disposition(self),
    {
        match self {
            ApplicationDefault::Ignored => CandidateDisposition::Ignored,
            ApplicationDefault::FreeSpace => CandidateDisposition::FreeSpace,
            ApplicationDefault::TopRight => CandidateDisposition::TopRight,
        }
    }
}

impl Default for ApplicationDefault {
    fn default() -> (r: ApplicationDefault)
        ensures
            r == ApplicationDefault::Ignored,
    {
        ApplicationDefault::Ignored
    }
}

/// The global shortcuts, as the user typed them.
#[derive(Debug, PartialEq, Eq)]
pub struct HotkeySettings {
    pub arrange_now: String,
    pub show_panel: String,
    pub locate_clubgg_lobbies: String,
}

impl Clone for HotkeySettings {
    fn clone(&self) -> (r: Self)
        ensures
            r == *self,
    {
        HotkeySettings {
            arrange_now: self.arrange_now.clone(),
            show_panel: self.show_panel.clone(),
            locate_clubgg_lobbies: self.locate_clubgg_lobbies.clone(),
        }
    }
}

impl Default for HotkeySettings {
    fn default() -> (r: HotkeySettings)
        ensures
            r.arrange_now@ == "Ctrl+Shift+A"@,
            r.show_panel@ == "Ctrl+Shift+P"@,
            r.locate_clubgg_lobbies@ == "Ctrl+Shift+G"@,
    {
        HotkeySettings {
            arrange_now: String::from_str("Ctrl+Shift+A"),
            show_panel: String::from_str("Ctrl+Shift+P"),
            locate_clubgg_lobbies: String::from_str("Ctrl+Shift+G"),
        }
    }
}

/// A saved choice for windows of one signature.
#[derive(Debug, PartialEq, Eq)]
pub struct DetectionRule {
    pub signature: WindowSignature,
    pub disposition: CandidateDisposition,
}

pub struct RuleView {
    pub signature: SignatureView,
    pub disposition: CandidateDisposition,
}

impl View for DetectionRule {
    type V = RuleView;

    open spec fn view(&self) -> RuleView {
        RuleView { signature: self.signature@, disposition: self.disposition }
    }
}

impl Clone for DetectionRule {
    fn clone(&self) -> (r: Self)
        ensures
            r == *self,
    {
        DetectionRule { signature: self.signature.clone(), disposition: self.disposition }
    }
}

pub open spec fn rules_view(rules: Seq<DetectionRule>) -> Seq<RuleView> {
    rules.map_values(|r: DetectionRule| r@)
}

/// The signature with the same process and class and an empty title: the
/// signature of the process-and-class fallback rule.
pub open spec fn fallback_of(signature: SignatureView) -> SignatureView {
    SignatureView {
        process_name: signature.process_name,
        class_name: signature.class_name,
        title_pattern: Seq::empty(),
    }
}

/// A rule that applies to every window of the same process and class.
pub open spec fn is_fallback_for(rule: RuleView, signature: SignatureView) -> bool {
    rule.signature.title_pattern.len() == 0 && rule.signature.process_name
        == signature.process_name && rule.signature.class_name == signature.class_name
}

/// The most recent rule saved for exactly `signature`.
pub open spec fn last_exact(rules: Seq<RuleView>, signature: SignatureView) -> Option<
    CandidateDisposition,
>
    decreases rules.len(),
{
    if rules.len() == 0 {
        None
    } else if rules.last().signature == signature {
        Some(rules.last().disposition)
    } else {
        last_exact(rules.drop_last(), signature)
    }
}

/// The most recent process-and-class fallback rule that covers `signature`.
pub open spec fn last_fallback(rules: Seq<RuleView>, signature: SignatureView) -> Option<
    CandidateDisposition,
>
    decreases rules.len(),
{
    if rules.len() == 0 {
        None
    } else if is_fallback_for(rules.last(), signature) {
        Some(rules.last().disposition)
    } else {
        last_fallback(rules.drop_last(), signature)
    }
}

/// The exact choice for `signature`, else its process-and-class fallback.
pub open spec fn resolved(rules: Seq<RuleView>, signature: SignatureView) -> Option<
    CandidateDisposition,
> {
    match last_exact(rules, signature) {
        Some(d) => Some(d),
        None => last_fallback(rules, signature),
    }
}

/// `rules` without the rules saved for exactly `signature`, order kept.
pub open spec fn without_signature(rules: Seq<RuleView>, signature: SignatureView) -> Seq<RuleView>
    decreases rules.len(),
{
    if rules.len() == 0 {
        rules
    } else {
        let rest = without_signature(rules.drop_last(), signature);
        if rules.last().signature == signature {
            rest
        } else {
            rest.push(rules.last())
        }
    }
}

/// `rules` without the fallback rules covering `signature`, order kept.
pub open spec fn without_fallbacks(rules: Seq<RuleView>, signature: SignatureView) -> Seq<RuleView>
    decreases rules.len(),
{
    if rules.len() == 0 {
        rules
    } else {
        let rest = without_fallbacks(rules.drop_last(), signature);
        if is_fallback_for(rules.last(), signature) {
            rest
        } else {
            rest.push(rules.last())
        }
    }
}

/// The rules after saving `disposition` for `signature`: older rules for the
/// same signature are dropped and the new rule goes last.
pub open spec fn with_rule(
    rules: Seq<RuleView>,
    signature: SignatureView,
    disposition: CandidateDisposition,
) -> Seq<RuleView> {
    without_signature(rules, signature).push(RuleView { signature, disposition })
}

/// No two rules share a signature.
pub open spec fn unique_signatures(rules: Seq<RuleView>) -> bool {
    forall|i: int, j: int|
        0 <= i < j < rules.len() ==> rules[i].signature != rules[j].signature
}

/// The settings file's contents.
#[derive(Debug)]
pub struct AppConfig {
    pub version: u32,
    pub selected_monitor: Option<String>,
    pub auto_arrange: bool,
    pub preserve_table_slots: bool,
    pub default_application_mode: ApplicationDefault,
    pub detection_rules: Vec<DetectionRule>,
    pub table_order: Vec<WindowSignature>,
    pub poker_columns: Vec<PokerColumnAssignment>,
    /// Anonymous slots intentionally left behind by a closed or manually moved table.
    pub poker_placeholders: Vec<PokerSlotId>,
    pub hotkeys: HotkeySettings,
    pub table_aspect_ratio: Option<AspectRatio>,
}

impl Default for AppConfig {
    fn default() -> (r: AppConfig)
        ensures
            r.version == CONFIG_VERSION,
            r.selected_monitor.is_none(),
            r.auto_arrange,
            r.preserve_table_slots,
            r.default_application_mode == ApplicationDefault::Ignored,
            r.detection_rules@.len() == 0,
            r.table_order@.len() == 0,
            r.poker_columns@.len() == 0,
            r.poker_placeholders@.len() == 0,
            r.hotkeys.arrange_now@ == "Ctrl+Shift+A"@,
            r.hotkeys.show_panel@ == "Ctrl+Shift+P"@,
            r.hotkeys.locate_clubgg_lobbies@ == "Ctrl+Shift+G"@,
            r.table_aspect_ratio.is_none(),
    {
        AppConfig {
            version: CONFIG_VERSION,
            selected_monitor: None,
            auto_arrange: true,
            preserve_table_slots: true,
            default_application_mode: ApplicationDefault::Ignored,
            detection_rules: Vec::new(),
            table_order: Vec::new(),
            poker_columns: Vec::new(),
            poker_placeholders: Vec::new(),
            hotkeys: HotkeySettings::default(),
            table_aspect_ratio: None,
        }
    }
}

/// Every field but the detection rules is the same.
pub open spec fn same_but_rules(a: AppConfig, b: AppConfig) -> bool {
    &&& a.version == b.version
    &&& a.selected_monitor == b.selected_monitor
    &&& a.auto_arrange == b.auto_arrange
    &&& a.preserve_table_slots == b.preserve_table_slots
    &&& a.default_application_mode == b.default_application_mode
    &&& a.table_order == b.table_order
    &&& a.poker_columns == b.poker_columns
    &&& a.poker_placeholders == b.poker_placeholders
    &&& a.hotkeys == b.hotkeys
    &&& a.table_aspect_ratio == b.table_aspect_ratio
}

/// `signature` with its title pattern emptied.
pub fn fallback_signature(signature: &WindowSignature) -> (r: WindowSignature)
    ensures
        r@ == fallback_of(signature@),
{
    WindowSignature {
        process_name: signature.process_name.clone(),
        class_name: signature.class_name.clone(),
        title_pattern: String::new(),
    }
}

fn rule_is_fallback_for(rule: &DetectionRule, signature: &WindowSignature) -> (r: bool)
    ensures
        r == is_fallback_for(rule@, signature@),
{
    rule.signature.title_pattern.unicode_len() == 0 && rule.signature.process_name
        == signature.process_name && rule.signature.class_name == signature.class_name
}

impl AppConfig {
    /// The rules as plain values.
    pub open spec fn rules(&self) -> Seq<RuleView> {
        rules_view(self.detection_rules@)
    }

    /// The most recent choice saved for exactly this signature.
    pub fn exact_disposition_for(&self, signature: &WindowSignature) -> (r: Option<
        CandidateDisposition,
    >)
        ensures
            r == last_exact(self.rules(), signature@),
    {
        let mut index = self.detection_rules.len();
        assert(self.rules().subrange(0, index as int) =~= self.rules());
        while index > 0
            invariant
                index <= self.detection_rules.len(),
                last_exact(self.rules(), signature@) == last_exact(
                    self.rules().subrange(0, index as int),
                    signature@,
                ),
            decreases index,
        {
            let rule = &self.detection_rules[index - 1];
            assert(self.rules().subrange(0, index - 1) =~= self.rules().subrange(
                0,
                index as int,
            ).drop_last());
            if same_signature(&rule.signature, signature) {
                return Some(rule.disposition);
            }
            index -= 1;
        }
        None
    }

    fn fallback_disposition_for(&self, signature: &WindowSignature) -> (r: Option<
        CandidateDisposition,
    >)
        ensures
            r == last_fallback(self.rules(), signature@),
    {
        let mut index = self.detection_rules.len();
        assert(self.rules().subrange(0, index as int) =~= self.rules());
        while index > 0
            invariant
                index <= self.detection_rules.len(),
                last_fallback(self.rules(), signature@) == last_fallback(
                    self.rules().subrange(0, index as int),
                    signature@,
                ),
            decreases index,
        {
            let rule = &self.detection_rules[index - 1];
            assert(self.rules().subrange(0, index - 1) =~= self.rules().subrange(
                0,
                index as int,
            ).drop_last());
            if rule_is_fallback_for(rule, signature) {
                return Some(rule.disposition);
            }
            index -= 1;
        }
        None
    }

    /// The saved choice for a window: its exact rule, else the most recent rule
    /// for its process and class with an empty title.
    pub fn disposition_for(&self, signature: &WindowSignature) -> (r: Option<
        CandidateDisposition,
    >)
        ensures
            r == resolved(self.rules(), signature@),
    {
        match self.exact_disposition_for(signature) {
            Some(disposition) => Some(disposition),
            None => self.fallback_disposition_for(signature),
        }
    }

    /// Drops every process-and-class fallback rule covering `signature`;
    /// reports whether any was dropped.
    pub fn remove_process_class_fallback(&mut self, signature: &WindowSignature) -> (r: bool)
        ensures
            final(self).rules() == without_fallbacks(old(self).rules(), signature@),
            r == (final(self).detection_rules@.len() != old(self).detection_rules@.len()),
            same_but_rules(*final(self), *old(self)),
    {
        let before = self.detection_rules.len();
        let mut kept: Vec<DetectionRule> = Vec::new();
        let mut index: usize = 0;
        while index < self.detection_rules.len()
            invariant
                index <= self.detection_rules.len(),
                rules_view(kept@) == without_fallbacks(
                    self.rules().subrange(0, index as int),
                    signature@,
                ),
            decreases self.detection_rules.len() - index,
        {
            let rule = &self.detection_rules[index];
            assert(self.rules().subrange(0, index as int) =~= self.rules().subrange(
                0,
                index + 1,
            ).drop_last());
            if !rule_is_fallback_for(rule, signature) {
                kept.push(rule.clone());
                assert(rules_view(kept@) =~= without_fallbacks(
                    self.rules().subrange(0, index as int),
                    signature@,
                ).push(rule@));
            }
            index += 1;
        }
        assert(self.rules().subrange(0, index as int) =~= self.rules());
        self.detection_rules = kept;
        self.detection_rules.len() != before
    }

    /// Saves `disposition` for windows with exactly `signature`, replacing any
    /// earlier rule for it.
    pub fn set_disposition(&mut self, signature: WindowSignature, disposition: CandidateDisposition)
        ensures
            final(self).rules() == with_rule(old(self).rules(), signature@, disposition),
            same_but_rules(*final(self), *old(self)),
    {
        let mut kept: Vec<DetectionRule> = Vec::new();
        let mut index: usize = 0;
        while index < self.detection_rules.len()
            invariant
                index <= self.detection_rules.len(),
                rules_view(kept@) == without_signature(
                    self.rules().subrange(0, index as int),
                    signature@,
                ),
            decreases self.detection_rules.len() - index,
        {
            let rule = &self.detection_rules[index];
            assert(self.rules().subrange(0, index as int) =~= self.rules().subrange(
                0,
                index + 1,
            ).drop_last());
            if !same_signature(&rule.signature, &signature) {
                kept.push(rule.clone());
                assert(rules_view(kept@) =~= without_signature(
                    self.rules().subrange(0, index as int),
                    signature@,
                ).push(rule@));
            }
            index += 1;
        }
        assert(self.rules().subrange(0, index as int) =~= self.rules());
        let ghost before = rules_view(kept@);
        kept.push(DetectionRule { signature, disposition });
        assert(rules_view(kept@) =~= before.push(RuleView { signature: signature@, disposition }));
        self.detection_rules = kept;
    }

    /// Saves `disposition` both for `signature` and for every window of its
    /// process and class (the fallback with an empty title).
    pub fn set_application_disposition(
        &mut self,
        signature: WindowSignature,
        disposition: CandidateDisposition,
    )
        ensures
            final(self).rules() == with_rule(
                with_rule(old(self).rules(), signature@, disposition),
                fallback_of(signature@),
                disposition,
            ),
            same_but_rules(*final(self), *old(self)),
    {
        let fallback = fallback_signature(&signature);
        self.set_disposition(signature, disposition);
        self.set_disposition(fallback, disposition);
    }

    /// Brings a configuration read from disk up to the current version: files
    /// older than version 4 get a process-and-class fallback for each saved
    /// Top-right or Fill-space choice.
    pub fn migrate(&mut self)
        ensures
            final(self).version == CONFIG_VERSION,
            final(self).rules() == (if old(self).version < 4 {
                with_fallbacks(old(self).rules(), placement_rules(old(self).rules()))
            } else {
                old(self).rules()
            }),
    {
        if self.version < 4 {
            let ghost rules_before = self.rules();
            let mut pending: Vec<DetectionRule> = Vec::new();
            let mut index: usize = 0;
            while index < self.detection_rules.len()
                invariant
                    index <= self.detection_rules.len(),
                    rules_view(pending@) == placement_rules(
                        self.rules().subrange(0, index as int),
                    ),
                decreases self.detection_rules.len() - index,
            {
                let rule = &self.detection_rules[index];
                assert(self.rules().subrange(0, index as int) =~= self.rules().subrange(
                    0,
                    index + 1,
                ).drop_last());
                if rule.disposition == CandidateDisposition::TopRight || rule.disposition
                    == CandidateDisposition::FreeSpace {
                    pending.push(rule.clone());
                    assert(rules_view(pending@) =~= placement_rules(
                        self.rules().subrange(0, index as int),
                    ).push(rule@));
                }
                index += 1;
            }
            assert(self.rules().subrange(0, index as int) =~= self.rules());
            let mut done: usize = 0;
            while done < pending.len()
                invariant
                    done <= pending.len(),
                    self.rules() == with_fallbacks(
                        rules_before,
                        rules_view(pending@).subrange(0, done as int),
                    ),
                    self.version < 4,
                decreases pending.len() - done,
            {
                let rule = &pending[done];
                let fallback = fallback_signature(&rule.signature);
                self.set_disposition(fallback, rule.disposition);
                assert(rules_view(pending@).subrange(0, done as int) =~= rules_view(
                    pending@,
                ).subrange(0, done + 1).drop_last());
                done += 1;
            }
            assert(rules_view(pending@).subrange(0, done as int) =~= rules_view(pending@));
        }
        self.version = CONFIG_VERSION;
    }
}

/// The rules choosing Top-right or Fill space, in order.
pub open spec fn placement_rules(rules: Seq<RuleView>) -> Seq<RuleView>
    decreases rules.len(),
{
    if rules.len() == 0 {
        rules
    } else {
        let rest = placement_rules(rules.drop_last());
        let last = rules.last();
        if last.disposition == CandidateDisposition::TopRight || last.disposition
            == CandidateDisposition::FreeSpace {
            rest.push(last)
        } else {
            rest
        }
    }
}

/// `rules` after saving, in order, a fallback rule for each rule of `pending`.
pub open spec fn with_fallbacks(rules: Seq<RuleView>, pending: Seq<RuleView>) -> Seq<RuleView>
    decreases pending.len(),
{
    if pending.len() == 0 {
        rules
    } else {
        let last = pending.last();
        with_rule(
            with_fallbacks(rules, pending.drop_last()),
            fallback_of(last.signature),
            last.disposition,
        )
    }
}

proof fn lemma_without_signature_lookup(
    rules: Seq<RuleView>,
    removed: SignatureView,
    other: SignatureView,
)
    requires
        other != removed,
    ensures
        last_exact(without_signature(rules, removed), other) == last_exact(rules, other),
    decreases rules.len(),
{
    if rules.len() > 0 {
        lemma_without_signature_lookup(rules.drop_last(), removed, other);
        let rest = without_signature(rules.drop_last(), removed);
        if rules.last().signature != removed {
            assert(rest.push(rules.last()).drop_last() =~= rest);
        }
    }
}

proof fn lemma_without_signature_members(rules: Seq<RuleView>, removed: SignatureView)
    ensures
        forall|i: int|
            0 <= i < without_signature(rules, removed).len() ==> without_signature(
                rules,
                removed,
            )[i].signature != removed && rules.contains(without_signature(rules, removed)[i]),
        unique_signatures(rules) ==> unique_signatures(without_signature(rules, removed)),
    decreases rules.len(),
{
    if rules.len() > 0 {
        let init = rules.drop_last();
        lemma_without_signature_members(init, removed);
        let rest = without_signature(init, removed);
        assert forall|i: int| 0 <= i < rest.len() implies rules.contains(rest[i]) by {
            let k = choose|k: int| 0 <= k < init.len() && init[k] == rest[i];
            assert(rules[k] == rest[i]);
        }
        if rules.last().signature != removed {
            let out = rest.push(rules.last());
            assert(rules[rules.len() - 1] == rules.last());
            if unique_signatures(rules) {
                assert(unique_signatures(init));
                assert forall|i: int, j: int|
                    0 <= i < j < out.len() implies out[i].signature != out[j].signature by {
                    if j == out.len() - 1 {
                        let k = choose|k: int| 0 <= k < init.len() && init[k] == rest[i];
                        assert(rules[k] == init[k]);
                    }
                }
            }
        }
    }
}

/// A saved choice for a window comes from a rule saved for that very
/// signature, else from a rule with an empty title for the same process and
/// the same class: when rule `k` is the most recent one saved for exactly the
/// signature, its choice wins; with no such rule, when rule `k` is the most
/// recent empty-title rule of the same process and class, its choice holds;
/// a window of another class, or with no such rule at all, has no saved
/// choice.
pub proof fn law_saved_choice_comes_from_a_matching_rule(rules: Seq<RuleView>, signature: SignatureView, k: int)
    ensures
        resolved(rules, signature) matches Some(d) ==> exists|i: int|
            0 <= i < rules.len() && (#[trigger] rules[i]).disposition == d && (rules[i].signature == signature || (
            rules[i].signature.title_pattern.len() == 0 && rules[i].signature.process_name == signature.process_name
                && rules[i].signature.class_name == signature.class_name)),
        (forall|i: int|
            0 <= i < rules.len() ==> (#[trigger] rules[i]).signature != signature && !(
            rules[i].signature.title_pattern.len() == 0 && rules[i].signature.process_name == signature.process_name
                && rules[i].signature.class_name == signature.class_name)) ==> resolved(rules, signature) is None,
        0 <= k < rules.len() && rules[k].signature == signature && (forall|j: int|
            k < j < rules.len() ==> (#[trigger] rules[j]).signature != signature) ==> resolved(rules, signature) == Some(
            rules[k].disposition,
        ),
        0 <= k < rules.len() && (forall|j: int| 0 <= j < rules.len() ==> (#[trigger] rules[j]).signature != signature)
            && rules[k].signature.title_pattern.len() == 0 && rules[k].signature.process_name == signature.process_name
            && rules[k].signature.class_name == signature.class_name && (forall|j: int|
            k < j < rules.len() ==> !((#[trigger] rules[j]).signature.title_pattern.len() == 0
                && rules[j].signature.process_name == signature.process_name
                && rules[j].signature.class_name == signature.class_name)) ==> resolved(rules, signature) == Some(
            rules[k].disposition,
        ),
{
    lemma_resolved_from_a_rule(rules, signature);
    lemma_resolved_none(rules, signature);
    if 0 <= k < rules.len() && rules[k].signature == signature && (forall|j: int|
        k < j < rules.len() ==> (#[trigger] rules[j]).signature != signature) {
        lemma_exact_last(rules, signature, k);
    }
    if 0 <= k < rules.len() && (forall|j: int| 0 <= j < rules.len() ==> (#[trigger] rules[j]).signature != signature)
        && rules[k].signature.title_pattern.len() == 0 && rules[k].signature.process_name == signature.process_name
        && rules[k].signature.class_name == signature.class_name && (forall|j: int|
        k < j < rules.len() ==> !((#[trigger] rules[j]).signature.title_pattern.len() == 0
            && rules[j].signature.process_name == signature.process_name
            && rules[j].signature.class_name == signature.class_name)) {
        lemma_exact_lookup(rules, signature);
        lemma_fallback_last(rules, signature, k);
    }
}

proof fn lemma_resolved_from_a_rule(rules: Seq<RuleView>, signature: SignatureView)
    ensures
        resolved(rules, signature) matches Some(d) ==> exists|k: int|
            0 <= k < rules.len() && (#[trigger] rules[k]).disposition == d && (rules[k].signature == signature || (
            rules[k].signature.title_pattern.len() == 0 && rules[k].signature.process_name == signature.process_name
                && rules[k].signature.class_name == signature.class_name)),
{
    lemma_exact_lookup(rules, signature);
    lemma_fallback_lookup(rules, signature);
}

proof fn lemma_resolved_none(rules: Seq<RuleView>, signature: SignatureView)
    ensures
        (forall|k: int|
            0 <= k < rules.len() ==> (#[trigger] rules[k]).signature != signature && !(
            rules[k].signature.title_pattern.len() == 0 && rules[k].signature.process_name == signature.process_name
                && rules[k].signature.class_name == signature.class_name)) ==> resolved(rules, signature) is None,
{
    lemma_exact_lookup(rules, signature);
    lemma_fallback_lookup(rules, signature);
}

proof fn lemma_exact_lookup(rules: Seq<RuleView>, signature: SignatureView)
    ensures
        last_exact(rules, signature) matches Some(d) ==> exists|k: int|
            0 <= k < rules.len() && (#[trigger] rules[k]).disposition == d && rules[k].signature == signature,
        (forall|k: int| 0 <= k < rules.len() ==> (#[trigger] rules[k]).signature != signature) ==> last_exact(
            rules,
            signature,
        ) is None,
    decreases rules.len(),
{
    if rules.len() > 0 {
        let init = rules.drop_last();
        lemma_exact_lookup(init, signature);
        let n = rules.len() - 1;
        if last_exact(rules, signature) is Some && rules.last().signature != signature {
            let k = choose|k: int| 0 <= k < init.len() && (#[trigger] init[k]).disposition == last_exact(init, signature)->0 && init[k].signature == signature;
            assert(rules[k] == init[k]);
        }
        if forall|k: int| 0 <= k < rules.len() ==> (#[trigger] rules[k]).signature != signature {
            assert forall|k: int| 0 <= k < init.len() implies (#[trigger] init[k]).signature != signature by {
                assert(rules[k] == init[k]);
            }
            assert(rules[n].signature != signature);
        }
    }
}

proof fn lemma_exact_last(rules: Seq<RuleView>, signature: SignatureView, k: int)
    requires
        0 <= k < rules.len(),
        rules[k].signature == signature,
        forall|j: int| k < j < rules.len() ==> (#[trigger] rules[j]).signature != signature,
    ensures
        last_exact(rules, signature) == Some(rules[k].disposition),
    decreases rules.len(),
{
    let n = rules.len() - 1;
    if k < n {
        let init = rules.drop_last();
        assert(rules[n].signature != signature);
        assert forall|j: int| k < j < init.len() implies (#[trigger] init[j]).signature != signature by {
            assert(init[j] == rules[j]);
        }
        lemma_exact_last(init, signature, k);
    }
}

proof fn lemma_fallback_lookup(rules: Seq<RuleView>, signature: SignatureView)
    ensures
        last_fallback(rules, signature) matches Some(d) ==> exists|k: int|
            0 <= k < rules.len() && (#[trigger] rules[k]).disposition == d && rules[k].signature.title_pattern.len() == 0
                && rules[k].signature.process_name == signature.process_name && rules[k].signature.class_name
                == signature.class_name,
        (forall|k: int|
            0 <= k < rules.len() ==> !((#[trigger] rules[k]).signature.title_pattern.len() == 0
                && rules[k].signature.process_name == signature.process_name && rules[k].signature.class_name
                == signature.class_name)) ==> last_fallback(rules, signature) is None,
    decreases rules.len(),
{
    if rules.len() > 0 {
        let init = rules.drop_last();
        lemma_fallback_lookup(init, signature);
        let n = rules.len() - 1;
        if last_fallback(rules, signature) is Some && !is_fallback_for(rules.last(), signature) {
            let k = choose|k: int|
                0 <= k < init.len() && (#[trigger] init[k]).disposition == last_fallback(init, signature)->0
                    && init[k].signature.title_pattern.len() == 0 && init[k].signature.process_name
                    == signature.process_name && init[k].signature.class_name == signature.class_name;
            assert(rules[k] == init[k]);
        }
        if forall|k: int|
            0 <= k < rules.len() ==> !((#[trigger] rules[k]).signature.title_pattern.len() == 0
                && rules[k].signature.process_name == signature.process_name && rules[k].signature.class_name
                == signature.class_name) {
            assert forall|k: int| 0 <= k < init.len() implies !((#[trigger] init[k]).signature.title_pattern.len() == 0
                && init[k].signature.process_name == signature.process_name && init[k].signature.class_name
                == signature.class_name) by {
                assert(rules[k] == init[k]);
            }
            assert(rules[n] == rules.last());
        }
    }
}

proof fn lemma_fallback_last(rules: Seq<RuleView>, signature: SignatureView, k: int)
    requires
        0 <= k < rules.len(),
        rules[k].signature.title_pattern.len() == 0,
        rules[k].signature.process_name == signature.process_name,
        rules[k].signature.class_name == signature.class_name,
        forall|j: int|
            k < j < rules.len() ==> !((#[trigger] rules[j]).signature.title_pattern.len() == 0
                && rules[j].signature.process_name == signature.process_name
                && rules[j].signature.class_name == signature.class_name),
    ensures
        last_fallback(rules, signature) == Some(rules[k].disposition),
    decreases rules.len(),
{
    let n = rules.len() - 1;
    if k < n {
        let init = rules.drop_last();
        assert(rules[n] == rules.last());
        assert forall|j: int| k < j < init.len() implies !((#[trigger] init[j]).signature.title_pattern.len() == 0
            && init[j].signature.process_name == signature.process_name
            && init[j].signature.class_name == signature.class_name) by {
            assert(init[j] == rules[j]);
        }
        lemma_fallback_last(init, signature, k);
    }
}

/// After saving a choice for a signature, looking that signature up gives the
/// choice back, both as its exact rule and as its resolved disposition.
pub proof fn law_saved_choice_is_read_back(
    rules: Seq<RuleView>,
    signature: SignatureView,
    disposition: CandidateDisposition,
)
    ensures
        last_exact(with_rule(rules, signature, disposition), signature) == Some(disposition),
        resolved(with_rule(rules, signature, disposition), signature) == Some(disposition),
{
}

/// Saving a choice for one signature leaves the exact choice of every other
/// signature as it was.
pub proof fn law_saving_leaves_other_signatures(
    rules: Seq<RuleView>,
    signature: SignatureView,
    disposition: CandidateDisposition,
    other: SignatureView,
)
    requires
        other != signature,
    ensures
        last_exact(with_rule(rules, signature, disposition), other) == last_exact(rules, other),
{
    lemma_without_signature_lookup(rules, signature, other);
    assert(with_rule(rules, signature, disposition).drop_last() =~= without_signature(
        rules,
        signature,
    ));
}

/// The last write wins: after saving, exactly one rule holds the signature, and
/// a rule list without duplicate signatures stays without them.
pub proof fn law_one_rule_per_signature(
    rules: Seq<RuleView>,
    signature: SignatureView,
    disposition: CandidateDisposition,
)
    ensures
        forall|i: int|
            0 <= i < with_rule(rules, signature, disposition).len() ==> (with_rule(
                rules,
                signature,
                disposition,
            )[i].signature == signature <==> i == with_rule(rules, signature, disposition).len()
                - 1),
        unique_signatures(rules) ==> unique_signatures(with_rule(rules, signature, disposition)),
{
    lemma_without_signature_members(rules, signature);
    let out = with_rule(rules, signature, disposition);
    let rest = without_signature(rules, signature);
    assert forall|i: int| 0 <= i < out.len() - 1 implies out[i] == rest[i] by {}
    if unique_signatures(rules) {
        assert forall|i: int, j: int|
            0 <= i < j < out.len() implies out[i].signature != out[j].signature by {
            if j < out.len() - 1 {
                assert(out[i] == rest[i] && out[j] == rest[j]);
            }
        }
    }
}

proof fn lemma_fallback_found_last(
    rules: Seq<RuleView>,
    signature: SignatureView,
    disposition: CandidateDisposition,
    other: SignatureView,
)
    requires
        other.process_name == signature.process_name,
        other.class_name == signature.class_name,
    ensures
        last_fallback(
            with_rule(with_rule(rules, signature, disposition), fallback_of(signature), disposition),
            other,
        ) == Some(disposition),
{
}

/// An application choice is read back for its own window, and every other
/// window of the same process and class without an exact choice of its own
/// follows it through the process-and-class fallback.
pub proof fn law_application_choice_covers_its_process(
    rules: Seq<RuleView>,
    signature: SignatureView,
    disposition: CandidateDisposition,
    other: SignatureView,
)
    requires
        other.process_name == signature.process_name,
        other.class_name == signature.class_name,
    ensures
        resolved(
            with_rule(with_rule(rules, signature, disposition), fallback_of(signature), disposition),
            other,
        ) == (if other == signature || other == fallback_of(signature) {
            Some(disposition)
        } else {
            match last_exact(rules, other) {
                Some(previous) => Some(previous),
                None => Some(disposition),
            }
        }),
{
    let first = with_rule(rules, signature, disposition);
    let second = with_rule(first, fallback_of(signature), disposition);
    lemma_fallback_found_last(rules, signature, disposition, other);
    if other == fallback_of(signature) {
        law_saved_choice_is_read_back(first, fallback_of(signature), disposition);
    } else {
        law_saving_leaves_other_signatures(first, fallback_of(signature), disposition, other);
        if other == signature {
            law_saved_choice_is_read_back(rules, signature, disposition);
        } else {
            law_saving_leaves_other_signatures(rules, signature, disposition, other);
        }
    }
}

} // verus!
