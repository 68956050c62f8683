//! The per-rule configuration sub-tables under `[tool.prose.rules]`,
//! their defaults, and the shared `MaxShift` knob.

use vstd::prelude::*;

use crate::rule::{known_slugs, selected_ids, selected_upto, slugs_of, RuleId};

verus! {

/// How far a row may shift to align, read from `max-shift`.
/// `Unlimited` lifts the cap so a contiguous run always aligns to its
/// widest member. `NoShift` forbids any shift, collapsing every row to
/// its minimal spacing. `Cap(n)` aligns a run while its width spread
/// stays within `n`; `n` is never zero (a zero reads as `NoShift`).
#[derive(Clone, Copy, Debug, PartialEq, Eq, Structural)]
pub enum MaxShift {
    Cap(usize),
    NoShift,
    Unlimited,
}

impl MaxShift {
    /// A `MaxShift` is well formed when a cap is positive.
    pub open spec fn wf(self) -> bool {
        self matches MaxShift::Cap(n) ==> n > 0
    }

    /// The default cap of sixteen columns.
    pub fn default_shift() -> (m: MaxShift)
        ensures
            m == MaxShift::Cap(16),
    {
        MaxShift::Cap(16)
    }

    /// Reads a `max-shift` integer: zero forbids shifting, any other
    /// value caps the spread.
    pub fn from_count(n: usize) -> (m: MaxShift)
        ensures
            m.wf(),
            n == 0 ==> m == MaxShift::NoShift,
            n > 0 ==> m == MaxShift::Cap(n),
    {
        if n == 0 {
            MaxShift::NoShift
        } else {
            MaxShift::Cap(n)
        }
    }

    /// Reads a `max-shift` boolean: `false` lifts the cap, whereas `true`
    /// is rejected (`max-shift` accepts a non-negative integer or `false`).
    pub fn from_switch(on: bool) -> (r: Result<MaxShift, ()>)
        ensures
            on <==> r is Err,
            !on ==> r == Ok::<MaxShift, ()>(MaxShift::Unlimited),
    {
        if on {
            Err(())
        } else {
            Ok(MaxShift::Unlimited)
        }
    }
}

/// Alignment-rule config shared by every rule that aligns a token
/// across consecutive lines. `max_shift` caps how far a row may shift
/// to reach the column.
#[derive(Clone, Copy, Debug)]
pub struct AlignmentConfig {
    pub enabled: bool,
    pub max_shift: MaxShift,
}

impl AlignmentConfig {
    /// Enabled, with the default cap.
    pub fn default_config() -> (c: AlignmentConfig)
        ensures
            c.enabled,
            c.max_shift == MaxShift::Cap(16),
    {
        AlignmentConfig { enabled: true, max_shift: MaxShift::default_shift() }
    }

    /// The `{ enabled = <bool> }` shorthand, other knobs at their defaults.
    pub fn with_enabled(enabled: bool) -> (c: AlignmentConfig)
        ensures
            c.enabled == enabled,
            c.max_shift == MaxShift::Cap(16),
    {
        AlignmentConfig { enabled, max_shift: MaxShift::default_shift() }
    }
}

impl Default for AlignmentConfig {
    fn default() -> (c: AlignmentConfig)
        ensures
            c.enabled,
            c.max_shift == MaxShift::Cap(16),
    {
        AlignmentConfig::default_config()
    }
}

/// What to do when an alignment group's widest padding exceeds the
/// rule's cap. `Split` partitions the group so each contiguous
/// sub-group satisfies the cap; `Drop` leaves the widest members at
/// their original spacing while their neighbours align around them.
#[derive(Clone, Copy, Debug, PartialEq, Eq, Structural)]
pub enum MaxAlignShiftPolicy {
    Drop,
    Split,
}

impl Default for MaxAlignShiftPolicy {
    fn default() -> (p: MaxAlignShiftPolicy)
        ensures
            p == MaxAlignShiftPolicy::Split,
    {
        MaxAlignShiftPolicy::Split
    }
}

/// Configuration for the `alphabetize` rule. `docstring_entries` gates
/// the Google-style entry-section reorder pass.
#[derive(Clone, Copy, Debug)]
pub struct AlphabetizeConfig {
    pub docstring_entries: bool,
    pub enabled: bool,
}

impl AlphabetizeConfig {
    /// The `{ enabled = <bool> }` shorthand, other knobs at their defaults.
    pub fn with_enabled(enabled: bool) -> (c: AlphabetizeConfig)
        ensures
            c.enabled == enabled,
            c.docstring_entries,
    {
        AlphabetizeConfig { docstring_entries: true, enabled }
    }
}

impl Default for AlphabetizeConfig {
    fn default() -> (c: AlphabetizeConfig)
        ensures
            c.enabled,
            c.docstring_entries,
    {
        AlphabetizeConfig { docstring_entries: true, enabled: true }
    }
}

/// Configuration for the bare-import allowlist: the modules that may be
/// imported bare.
#[derive(Debug)]
pub struct BareImportAllowlistConfig {
    pub allow: Vec<String>,
    pub enabled: bool,
}

impl Default for BareImportAllowlistConfig {
    fn default() -> (c: BareImportAllowlistConfig)
        ensures
            c.enabled,
            c.allow@.len() == 2,
            c.allow@[0]@ == "numpy"@,
            c.allow@[1]@ == "pandas"@,
    {
        let numpy = crate::text::string_from_chars(crate::text::chars_of("numpy").as_slice());
        let pandas = crate::text::string_from_chars(crate::text::chars_of("pandas").as_slice());
        BareImportAllowlistConfig { allow: vec![numpy, pandas], enabled: true }
    }
}

/// Configuration for the `bare-imports` rule.
#[derive(Debug)]
pub struct BareImportsConfig {
    pub allow: Vec<String>,
    pub allow_aliased: bool,
    pub enabled: bool,
    pub max_attributes: usize,
}

impl BareImportsConfig {
    /// The `{ enabled = <bool> }` shorthand, other knobs at their defaults.
    pub fn with_enabled(enabled: bool) -> (c: BareImportsConfig)
        ensures
            c.enabled == enabled,
            c.allow@.len() == 0,
            c.allow_aliased,
            c.max_attributes == 4,
    {
        BareImportsConfig { allow: Vec::new(), allow_aliased: true, enabled, max_attributes: 4 }
    }
}

impl Default for BareImportsConfig {
    fn default() -> (c: BareImportsConfig)
        ensures
            c.enabled,
            c.allow@.len() == 0,
            c.allow_aliased,
            c.max_attributes == 4,
    {
        BareImportsConfig::with_enabled(true)
    }
}

/// Cache settings parsed from `[tool.prose.cache]`.
#[derive(Clone, Copy, Debug)]
pub struct CacheConfig {
    pub enabled: bool,
    pub max_size_mib: u32,
}

impl Default for CacheConfig {
    fn default() -> (c: CacheConfig)
        ensures
            c.enabled,
            c.max_size_mib == 100,
    {
        CacheConfig { enabled: true, max_size_mib: 100 }
    }
}

/// An optional positive cap: `Some(n)` enforces `n`, `None` disables
/// the cap.
pub open spec fn cap_wf(c: Option<usize>) -> bool {
    c matches Some(n) ==> n > 0
}

/// Configuration for the `call-layout` rule. `max_inline_args` caps the
/// argument count a call keeps inline; `None` disables the count
/// trigger.
#[derive(Clone, Copy, Debug)]
pub struct CallLayoutConfig {
    pub enabled: bool,
    pub max_inline_args: Option<usize>,
}

impl CallLayoutConfig {
    /// A cap, when set, is positive.
    pub open spec fn wf(self) -> bool {
        cap_wf(self.max_inline_args)
    }

    /// The `{ enabled = <bool> }` shorthand, other knobs at their defaults.
    pub fn with_enabled(enabled: bool) -> (c: CallLayoutConfig)
        ensures
            c.enabled == enabled,
            c.max_inline_args == Some(3usize),
            c.wf(),
    {
        CallLayoutConfig { enabled, max_inline_args: Some(3) }
    }
}

impl Default for CallLayoutConfig {
    fn default() -> (c: CallLayoutConfig)
        ensures
            c.enabled,
            c.max_inline_args == Some(3usize),
    {
        CallLayoutConfig::with_enabled(true)
    }
}

/// Configuration for the `collection-layout` rule. Each cap takes a
/// positive integer, or `None` to leave width as the only gate.
#[derive(Clone, Copy, Debug)]
pub struct CollectionLayoutConfig {
    pub enabled: bool,
    pub max_atomics_per_line: Option<usize>,
    pub max_inline_dict_entries: Option<usize>,
}

impl CollectionLayoutConfig {
    /// Each cap, when set, is positive.
    pub open spec fn wf(self) -> bool {
        cap_wf(self.max_atomics_per_line) && cap_wf(self.max_inline_dict_entries)
    }

    /// The `{ enabled = <bool> }` shorthand, other knobs at their defaults.
    pub fn with_enabled(enabled: bool) -> (c: CollectionLayoutConfig)
        ensures
            c.enabled == enabled,
            c.max_atomics_per_line == Some(8usize),
            c.max_inline_dict_entries == Some(3usize),
            c.wf(),
    {
        CollectionLayoutConfig { enabled, max_atomics_per_line: Some(8), max_inline_dict_entries: Some(3) }
    }
}

impl Default for CollectionLayoutConfig {
    fn default() -> (c: CollectionLayoutConfig)
        ensures
            c.enabled,
            c.max_atomics_per_line == Some(8usize),
            c.max_inline_dict_entries == Some(3usize),
    {
        CollectionLayoutConfig::with_enabled(true)
    }
}

/// Which budget structured docstring sections wrap to: the code line
/// length or the docstring line length.
#[derive(Clone, Copy, Debug, PartialEq, Eq, Structural)]
pub enum DocstringStructuredPolicy {
    CodeLineLength,
    DocstringLineLength,
}

impl Default for DocstringStructuredPolicy {
    fn default() -> (p: DocstringStructuredPolicy)
        ensures
            p == DocstringStructuredPolicy::CodeLineLength,
    {
        DocstringStructuredPolicy::CodeLineLength
    }
}

/// Settings parsed from `[tool.prose.imports]`: the package names whose
/// imports group with relative imports as local-package.
#[derive(Debug)]
pub struct ImportsConfig {
    pub first_party: Vec<String>,
}

impl Default for ImportsConfig {
    fn default() -> (c: ImportsConfig)
        ensures
            c.first_party@.len() == 0,
    {
        ImportsConfig { first_party: Vec::new() }
    }
}

/// Configuration for the loose-constants rule.
#[derive(Debug)]
pub struct LooseConstantsConfig {
    pub allow: Vec<String>,
    pub enabled: bool,
}

impl Default for LooseConstantsConfig {
    fn default() -> (c: LooseConstantsConfig)
        ensures
            c.enabled,
            c.allow@.len() == 0,
    {
        LooseConstantsConfig { allow: Vec::new(), enabled: true }
    }
}

/// Configuration for the `reassigned-constants` rule: names allowed to
/// be reassigned despite their constant casing.
#[derive(Debug)]
pub struct ReassignedConstantsConfig {
    pub allow: Vec<String>,
    pub enabled: bool,
}

impl ReassignedConstantsConfig {
    /// The `{ enabled = <bool> }` shorthand, other knobs at their defaults.
    pub fn with_enabled(enabled: bool) -> (c: ReassignedConstantsConfig)
        ensures
            c.enabled == enabled,
            c.allow@.len() == 0,
    {
        ReassignedConstantsConfig { allow: Vec::new(), enabled }
    }
}

impl Default for ReassignedConstantsConfig {
    fn default() -> (c: ReassignedConstantsConfig)
        ensures
            c.enabled,
            c.allow@.len() == 0,
    {
        ReassignedConstantsConfig::with_enabled(true)
    }
}

/// Configuration for the `signature-layout` rule. `max_inline_params`
/// caps the parameter count a signature keeps inline; `None` disables
/// the count trigger.
#[derive(Clone, Copy, Debug)]
pub struct SignatureLayoutConfig {
    pub enabled: bool,
    pub max_inline_params: Option<usize>,
}

impl SignatureLayoutConfig {
    /// A cap, when set, is positive.
    pub open spec fn wf(self) -> bool {
        cap_wf(self.max_inline_params)
    }

    /// The `{ enabled = <bool> }` shorthand, other knobs at their defaults.
    pub fn with_enabled(enabled: bool) -> (c: SignatureLayoutConfig)
        ensures
            c.enabled == enabled,
            c.max_inline_params == Some(4usize),
            c.wf(),
    {
        SignatureLayoutConfig { enabled, max_inline_params: Some(4) }
    }
}

impl Default for SignatureLayoutConfig {
    fn default() -> (c: SignatureLayoutConfig)
        ensures
            c.enabled,
            c.max_inline_params == Some(4usize),
    {
        SignatureLayoutConfig::with_enabled(true)
    }
}

/// Sub-table shape for rules whose only knob is `enabled`.
#[derive(Clone, Copy, Debug)]
pub struct ToggleOnly {
    pub enabled: bool,
}

impl ToggleOnly {
    /// The `{ enabled = <bool> }` shorthand.
    pub fn with_enabled(enabled: bool) -> (c: ToggleOnly)
        ensures
            c.enabled == enabled,
    {
        ToggleOnly { enabled }
    }
}

impl Default for ToggleOnly {
    fn default() -> (c: ToggleOnly)
        ensures
            c.enabled,
    {
        ToggleOnly { enabled: true }
    }
}

/// Reads an optional cap knob: a positive integer sets the cap, `false`
/// disables it, and `true` is refused with a message naming the knob.
pub fn optional_cap_from_switch(on: bool, knob: &str) -> (r: Result<Option<usize>, String>)
    ensures
        !on ==> r == Ok::<Option<usize>, String>(None),
        on ==> (r matches Err(m) && m@ == "`"@ + knob@ + "` accepts a positive integer or `false`, not `true`"@),
{
    if !on {
        return Ok(None);
    }
    let mut m = String::new();
    crate::text::push_str(&mut m, "`");
    crate::text::push_str(&mut m, knob);
    crate::text::push_str(&mut m, "` accepts a positive integer or `false`, not `true`");
    Err(m)
}


/// Where a directory's configuration comes from.
#[derive(Clone, Copy, Debug, PartialEq, Eq, Structural)]
pub enum ConfigSource {
    ProseToml,
    Pyproject,
}

/// What the upward configuration walk decides at one directory, given
/// whether it holds a `prose.toml` and whether its `pyproject.toml`
/// carries a `[tool.prose]` table: a `prose.toml` wins and stops the
/// walk, noting when it shadows such a table; otherwise a table stops
/// the walk; otherwise the walk moves up. The flag is whether to note
/// the shadowed table.
pub fn config_choice(has_prose_toml: bool, pyproject_has_prose: bool) -> (r: Option<(ConfigSource, bool)>)
    ensures
        has_prose_toml ==> r == Some((ConfigSource::ProseToml, pyproject_has_prose)),
        !has_prose_toml && pyproject_has_prose ==> r == Some((ConfigSource::Pyproject, false)),
        !has_prose_toml && !pyproject_has_prose ==> r is None,
{
    if has_prose_toml {
        Some((ConfigSource::ProseToml, pyproject_has_prose))
    } else if pyproject_has_prose {
        Some((ConfigSource::Pyproject, false))
    } else {
        None
    }
}


/// Configuration for the `single-use-variables` rule: the pattern of
/// names it leaves alone, as written.
pub struct SingleUseVariablesConfig {
    pub allow_pattern: String,
    pub enabled: bool,
}

impl Default for SingleUseVariablesConfig {
    fn default() -> (c: SingleUseVariablesConfig)
        ensures
            c.allow_pattern@ == "^_"@,
            c.enabled,
    {
        let mut allow_pattern = String::new();
        crate::text::push_str(&mut allow_pattern, "^_");
        assert(allow_pattern@ =~= "^_"@);
        SingleUseVariablesConfig { allow_pattern, enabled: true }
    }
}

/// Every rule's sub-table, one field per registry row.
pub struct RuleConfigs {
    pub collection_layout: CollectionLayoutConfig,
    pub alphabetize: AlphabetizeConfig,
    pub call_layout: CallLayoutConfig,
    pub strip_trailing_commas: ToggleOnly,
    pub docstring_expand: ToggleOnly,
    pub docstring_frame: ToggleOnly,
    pub unused_future_annotations: ToggleOnly,
    pub blank_lines: ToggleOnly,
    pub bare_imports: BareImportsConfig,
    pub align_match_case: AlignmentConfig,
    pub strip_none_return: ToggleOnly,
    pub signature_layout: SignatureLayoutConfig,
    pub import_layout: ToggleOnly,
    pub align_imports: AlignmentConfig,
    pub align_colons: AlignmentConfig,
    pub docstring_wrap: ToggleOnly,
    pub align_equals: AlignmentConfig,
    pub align_comparisons: AlignmentConfig,
    pub strip_align_padding: ToggleOnly,
    pub reassigned_constants: ReassignedConstantsConfig,
    pub step_narration: ToggleOnly,
    pub legacy_union_syntax: ToggleOnly,
    pub single_use_variables: SingleUseVariablesConfig,
    pub signature_annotations: ToggleOnly,
}

/// The rules' `enabled` flags, in registry order.
pub open spec fn enabled_flags_spec(r: RuleConfigs) -> Seq<bool> {
    seq![
        r.collection_layout.enabled,
        r.alphabetize.enabled,
        r.call_layout.enabled,
        r.strip_trailing_commas.enabled,
        r.docstring_expand.enabled,
        r.docstring_frame.enabled,
        r.unused_future_annotations.enabled,
        r.blank_lines.enabled,
        r.bare_imports.enabled,
        r.align_match_case.enabled,
        r.strip_none_return.enabled,
        r.signature_layout.enabled,
        r.import_layout.enabled,
        r.align_imports.enabled,
        r.align_colons.enabled,
        r.docstring_wrap.enabled,
        r.align_equals.enabled,
        r.align_comparisons.enabled,
        r.strip_align_padding.enabled,
        r.reassigned_constants.enabled,
        r.step_narration.enabled,
        r.legacy_union_syntax.enabled,
        r.single_use_variables.enabled,
        r.signature_annotations.enabled,
    ]
}

impl RuleConfigs {
    /// The rules' `enabled` flags, in registry order; see
    /// [`enabled_flags_spec`].
    pub fn enabled_flags(&self) -> (r: Vec<bool>)
        ensures
            r@ == enabled_flags_spec(*self),
    {
        let r = vec![
            self.collection_layout.enabled,
            self.alphabetize.enabled,
            self.call_layout.enabled,
            self.strip_trailing_commas.enabled,
            self.docstring_expand.enabled,
            self.docstring_frame.enabled,
            self.unused_future_annotations.enabled,
            self.blank_lines.enabled,
            self.bare_imports.enabled,
            self.align_match_case.enabled,
            self.strip_none_return.enabled,
            self.signature_layout.enabled,
            self.import_layout.enabled,
            self.align_imports.enabled,
            self.align_colons.enabled,
            self.docstring_wrap.enabled,
            self.align_equals.enabled,
            self.align_comparisons.enabled,
            self.strip_align_padding.enabled,
            self.reassigned_constants.enabled,
            self.step_narration.enabled,
            self.legacy_union_syntax.enabled,
            self.single_use_variables.enabled,
            self.signature_annotations.enabled,
        ];
        assert(r@ =~= enabled_flags_spec(*self));
        r
    }
}

impl Default for RuleConfigs {
    fn default() -> (c: RuleConfigs)
        ensures
            forall|i: int| 0 <= i < 24 ==> #[trigger] enabled_flags_spec(c)[i],
    {
        RuleConfigs {
            collection_layout: CollectionLayoutConfig::default(),
            alphabetize: AlphabetizeConfig::default(),
            call_layout: CallLayoutConfig::default(),
            strip_trailing_commas: ToggleOnly::default(),
            docstring_expand: ToggleOnly::default(),
            docstring_frame: ToggleOnly::default(),
            unused_future_annotations: ToggleOnly::default(),
            blank_lines: ToggleOnly::default(),
            bare_imports: BareImportsConfig::default(),
            align_match_case: AlignmentConfig::default(),
            strip_none_return: ToggleOnly::default(),
            signature_layout: SignatureLayoutConfig::default(),
            import_layout: ToggleOnly::default(),
            align_imports: AlignmentConfig::default(),
            align_colons: AlignmentConfig::default(),
            docstring_wrap: ToggleOnly::default(),
            align_equals: AlignmentConfig::default(),
            align_comparisons: AlignmentConfig::default(),
            strip_align_padding: ToggleOnly::default(),
            reassigned_constants: ReassignedConstantsConfig::default(),
            step_narration: ToggleOnly::default(),
            legacy_union_syntax: ToggleOnly::default(),
            single_use_variables: SingleUseVariablesConfig::default(),
            signature_annotations: ToggleOnly::default(),
        }
    }
}

/// The whole `[tool.prose]` configuration. Line lengths are positive;
/// the target Python version is a `(major, minor)` pair when set.
pub struct Config {
    pub cache: CacheConfig,
    pub code_line_length: Option<usize>,
    pub docstring_line_length: Option<usize>,
    pub docstring_structured_policy: DocstringStructuredPolicy,
    pub import_line_length: Option<usize>,
    pub imports: ImportsConfig,
    pub rules: RuleConfigs,
    pub target_version: Option<(u8, u8)>,
}

impl Default for Config {
    fn default() -> (c: Config)
        ensures
            c.code_line_length == Some(88usize),
            c.docstring_line_length == Some(76usize),
            c.import_line_length == Some(120usize),
            c.docstring_structured_policy == DocstringStructuredPolicy::CodeLineLength,
            c.imports.first_party@.len() == 0,
            c.cache.enabled && c.cache.max_size_mib == 100,
            c.target_version is None,
            forall|i: int| 0 <= i < 24 ==> #[trigger] enabled_flags_spec(c.rules)[i],
    {
        Config {
            cache: CacheConfig::default(),
            code_line_length: Some(88),
            docstring_line_length: Some(76),
            docstring_structured_policy: DocstringStructuredPolicy::default(),
            import_line_length: Some(120),
            imports: ImportsConfig::default(),
            rules: RuleConfigs::default(),
            target_version: None,
        }
    }
}

impl Config {
    /// The code line budget. Configurations always carry one; the
    /// default is 88.
    pub fn code_width(&self) -> (w: usize)
        requires
            self.code_line_length is Some,
        ensures
            Some(w) == self.code_line_length,
    {
        match self.code_line_length {
            Some(w) => w,
            None => 0,
        }
    }

    /// The docstring line budget. Configurations always carry one; the
    /// default is 76.
    pub fn docstring_width(&self) -> (w: usize)
        requires
            self.docstring_line_length is Some,
        ensures
            Some(w) == self.docstring_line_length,
    {
        match self.docstring_line_length {
            Some(w) => w,
            None => 0,
        }
    }

    /// The budget governing import wrapping, falling back to the code
    /// budget when `import_line_length` is unset.
    pub fn import_width(&self) -> (w: usize)
        requires
            self.code_line_length is Some,
        ensures
            w == match self.import_line_length {
                Some(n) => n,
                None => self.code_line_length->Some_0,
            },
    {
        match self.import_line_length {
            Some(n) => n,
            None => self.code_width(),
        }
    }

    /// The first-party package roots, as configured.
    pub fn first_party(&self) -> (r: Vec<String>)
        ensures
            r@.len() == self.imports.first_party@.len(),
            forall|i: int| 0 <= i < r@.len() ==> #[trigger] r@[i]@ == self.imports.first_party@[i]@,
    {
        let src = &self.imports.first_party;
        let mut r: Vec<String> = Vec::new();
        let mut i: usize = 0;
        while i < src.len()
            invariant
                i <= src.len(),
                r@.len() == i,
                forall|k: int| 0 <= k < i ==> #[trigger] r@[k]@ == src@[k]@,
            decreases src.len() - i,
        {
            let mut s = String::new();
            crate::text::push_str(&mut s, src[i].as_str());
            r.push(s);
            i += 1;
        }
        r
    }

    /// The rules a run applies: `select` in place of the configured
    /// toggles when non-empty, less `ignore`, in registry order.
    pub fn selected_rules(&self, select: &[RuleId], ignore: &[RuleId]) -> (r: Vec<RuleId>)
        ensures
            slugs_of(r@) == selected_upto(
                enabled_flags_spec(self.rules),
                select@,
                ignore@,
                known_slugs().len() as int,
            ),
    {
        let enabled = self.rules.enabled_flags();
        selected_ids(enabled.as_slice(), select, ignore)
    }
}

} // verus!
