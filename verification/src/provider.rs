//! Webhook provider templates: output-path parsing, canonical forms, and
//! compilation of a provider's event-field-to-path map.

use vstd::prelude::*;
use vstd::string::StrSliceExecFns;
use vstd::string::StringExecFns;

use crate::config::{ConfigValidationError, ValidationIssue, WebhookProviderConfig, WebhookSinkConfig};
use crate::json::{
    fits_step, independent_paths, index_in_bounds, insert_at, insert_value, is_step_prefix, json_at,
    json_of, label_slot, left_by_write, lemma_insert_keeps_independent, lemma_insert_leaves,
    lemma_insert_ok, lemma_insert_reads_back, Json, JsonValue,
};
use crate::runtime::RuntimeConfig;
use crate::types::VentEvent;
use crate::text::{
    chars_of, decimal, digit_char, digits_value, first_non_ws_from, has_prefix, is_digit,
    is_key_char, is_valid_key, lemma_split_on_len, non_ws_end_before, opt_text, parse_usize,
    parsed_usize, push_char, push_decimal, same_text, split_on, split_text, string_from_chars,
    texts, trim_text, trimmed, unsigned_part, valid_key,
};

verus! {

/// Upper bound for numeric array indices in provider output paths.
///
/// Indices are materialized when a payload is rendered by growing an array up
/// to the index, so an unbounded index could exhaust memory.
pub const MAX_PROVIDER_ARRAY_INDEX: usize = 64;

/// One step of an output path, as a mathematical value.
pub enum PathStep {
    Key(Seq<char>),
    Index(nat),
}

/// One step of an output path: an object key or an array index.
#[derive(Debug, PartialEq, Eq)]
pub enum PathSegment {
    Key(String),
    Index(usize),
}

impl View for PathSegment {
    type V = PathStep;

    open spec fn view(&self) -> PathStep {
        match self {
            PathSegment::Key(key) => PathStep::Key(key@),
            PathSegment::Index(index) => PathStep::Index(*index as nat),
        }
    }
}

/// The models of a sequence of path segments.
pub open spec fn steps(v: Seq<PathSegment>) -> Seq<PathStep> {
    v.map_values(|x: PathSegment| x@)
}

/// `str::split('.')`: the pieces between dots, empty pieces included.
pub open spec fn split_dots(s: Seq<char>) -> Seq<Seq<char>> {
    split_on(s, '.')
}

/// The step that one piece of a path denotes.
pub open spec fn step_of(piece: Seq<char>) -> PathStep {
    match parsed_usize(piece) {
        Some(v) => PathStep::Index(v),
        None => PathStep::Key(piece),
    }
}

/// A piece at `position` is non-empty and either a key, or an index that is
/// not the first piece and at most `MAX_PROVIDER_ARRAY_INDEX`.
pub open spec fn piece_ok(piece: Seq<char>, position: int) -> bool {
    &&& piece.len() > 0
    &&& match parsed_usize(piece) {
        Some(v) => position != 0 && v <= MAX_PROVIDER_ARRAY_INDEX,
        None => is_valid_key(piece),
    }
}

/// The steps of a dotted output path (trimmed first), or `None` when it is invalid.
pub open spec fn parse_output_path(raw: Seq<char>) -> Option<Seq<PathStep>> {
    let path = trimmed(raw);
    let pieces = split_dots(path);
    if path.len() > 0 && (forall|j: int| 0 <= j < pieces.len() ==> #[trigger] piece_ok(pieces[j], j)) {
        Some(pieces.map_values(|p: Seq<char>| step_of(p)))
    } else {
        None
    }
}

/// Text of one step in the canonical dotted form.
pub open spec fn step_text(s: PathStep) -> Seq<char> {
    match s {
        PathStep::Key(k) => k,
        PathStep::Index(n) => decimal(n),
    }
}

/// Pieces joined with `.`.
pub open spec fn join_dots(parts: Seq<Seq<char>>) -> Seq<char>
    decreases parts.len(),
{
    if parts.len() == 0 {
        Seq::empty()
    } else if parts.len() == 1 {
        parts[0]
    } else {
        join_dots(parts.drop_last()) + seq!['.'] + parts.last()
    }
}

/// Canonical dotted form of a path.
pub open spec fn canonical_text(path: Seq<PathStep>) -> Seq<char> {
    join_dots(path.map_values(|s: PathStep| step_text(s)))
}

/// `ancestor` names a strict parent path of `descendant`.
pub open spec fn is_path_ancestor(ancestor: Seq<char>, descendant: Seq<char>) -> bool {
    &&& descendant.len() > ancestor.len()
    &&& has_prefix(descendant, ancestor)
    &&& descendant[ancestor.len() as int] == '.'
}

/// Checks `is_path_ancestor` (on characters, which agrees with bytes because `.` is ASCII).
pub fn path_is_ancestor(ancestor: &str, descendant: &str) -> (r: bool)
    ensures
        r == is_path_ancestor(ancestor@, descendant@),
{
    let a = chars_of(ancestor);
    let d = chars_of(descendant);
    if d.len() <= a.len() {
        return false;
    }
    let mut i: usize = 0;
    while i < a.len()
        invariant
            a@ == ancestor@,
            d@ == descendant@,
            a@.len() < d@.len(),
            i <= a@.len(),
            forall|k: int| 0 <= k < i ==> a@[k] == d@[k],
        decreases a@.len() - i,
    {
        if a[i] != d[i] {
            assert(descendant@.take(ancestor@.len() as int)[i as int] != ancestor@[i as int]);
            return false;
        }
        i = i + 1;
    }
    assert(descendant@.take(ancestor@.len() as int) =~= ancestor@);
    d[a.len()] == '.'
}

/// A parsed provider output path.
#[derive(Debug, PartialEq, Eq)]
pub struct OutputPath {
    segments: Vec<PathSegment>,
}

impl View for OutputPath {
    type V = Seq<PathStep>;

    closed spec fn view(&self) -> Seq<PathStep> {
        steps(self.segments@)
    }
}

impl OutputPath {
    /// Parses a dotted path such as `embeds.0.fields.0.value`.
    pub fn parse(path: &str) -> (r: Result<OutputPath, ()>)
        ensures
            r matches Ok(p) ==> parse_output_path(path@) == Some(p@),
            r is Err ==> parse_output_path(path@) is None,
    {
        let path_text = trim_text(path);
        if path_text.as_str().unicode_len() == 0 {
            return Err(());
        }
        let pieces = split_text(path_text.as_str(), '.');
        let ghost want = split_dots(trimmed(path@));
        let mut segments: Vec<PathSegment> = Vec::new();
        let mut j: usize = 0;
        while j < pieces.len()
            invariant
                texts(pieces@) == want,
                want == split_dots(trimmed(path@)),
                j <= pieces@.len(),
                forall|k: int| 0 <= k < j ==> #[trigger] piece_ok(want[k], k),
                steps(segments@) == want.take(j as int).map_values(|p: Seq<char>| step_of(p)),
            decreases pieces@.len() - j,
        {
            let piece = &pieces[j];
            assert(piece@ == want[j as int]);
            if piece.as_str().unicode_len() == 0 {
                assert(!piece_ok(want[j as int], j as int));
                return Err(());
            }
            let segment = match parse_usize(piece.as_str()) {
                Some(index) => {
                    if j == 0 || index > MAX_PROVIDER_ARRAY_INDEX {
                        assert(!piece_ok(want[j as int], j as int));
                        return Err(());
                    }
                    PathSegment::Index(index)
                },
                None => {
                    if !valid_key(piece.as_str()) {
                        assert(!piece_ok(want[j as int], j as int));
                        return Err(());
                    }
                    PathSegment::Key(piece.clone())
                },
            };
            assert(segment@ == step_of(want[j as int]));
            let ghost before = segments@;
            segments.push(segment);
            assert(steps(segments@) =~= steps(before).push(segment@));
            assert(want.take(j + 1) =~= want.take(j as int).push(want[j as int]));
            assert(steps(segments@) =~= want.take(j + 1).map_values(|p: Seq<char>| step_of(p)));
            j = j + 1;
        }
        assert(want.take(want.len() as int) =~= want);
        Ok(OutputPath { segments })
    }

    /// The canonical dotted form: keys as written, indices in decimal.
    pub fn canonical(&self) -> (r: String)
        ensures
            r@ == canonical_text(self@),
    {
        let ghost parts = self@.map_values(|s: PathStep| step_text(s));
        let mut out = String::new();
        let mut i: usize = 0;
        assert(parts.take(0) =~= Seq::<Seq<char>>::empty());
        while i < self.segments.len()
            invariant
                parts == self@.map_values(|s: PathStep| step_text(s)),
                self@ == steps(self.segments@),
                i <= self.segments@.len(),
                out@ == join_dots(parts.take(i as int)),
            decreases self.segments@.len() - i,
        {
            let ghost before = out@;
            if i > 0 {
                out.append(".");
                proof {
                    reveal_strlit(".");
                }
            }
            match &self.segments[i] {
                PathSegment::Key(key) => {
                    out.append(key.as_str());
                },
                PathSegment::Index(index) => {
                    push_decimal(&mut out, *index as u64);
                },
            }
            assert(parts.take(i + 1).drop_last() =~= parts.take(i as int));
            assert(parts[i as int] == step_text(self.segments@[i as int]@));
            if i > 0 {
                assert(out@ =~= join_dots(parts.take(i as int)) + seq!['.'] + parts[i as int]);
            } else {
                assert(out@ =~= parts[0]);
            }
            i = i + 1;
        }
        assert(parts.take(parts.len() as int) =~= parts);
        out
    }
}


/// The canonical event fields a provider may map.
pub open spec fn is_event_field(f: Seq<char>) -> bool {
    f == "id"@ || f == "timestamp"@ || f == "channel"@ || f == "message"@ || f == "project"@
}

/// Checks `is_event_field`.
pub fn event_field(f: &str) -> (r: bool)
    ensures
        r == is_event_field(f@),
{
    same_text(f, "id") || same_text(f, "timestamp") || same_text(f, "channel") || same_text(
        f,
        "message",
    ) || same_text(f, "project")
}

/// Whether two segments denote the same step.
fn same_segment(a: &PathSegment, b: &PathSegment) -> (r: bool)
    ensures
        r == (a@ == b@),
{
    match (a, b) {
        (PathSegment::Key(x), PathSegment::Key(y)) => same_text(x.as_str(), y.as_str()),
        (PathSegment::Index(x), PathSegment::Index(y)) => *x == *y,
        _ => false,
    }
}

/// Whether two segments are both keys or both indices.
fn same_segment_kind(a: &PathSegment, b: &PathSegment) -> (r: bool)
    ensures
        r == same_kind(a@, b@),
{
    match (a, b) {
        (PathSegment::Key(_), PathSegment::Key(_)) => true,
        (PathSegment::Index(_), PathSegment::Index(_)) => true,
        _ => false,
    }
}

/// Checks `under_label`.
fn beneath_label(p: &Vec<PathSegment>, q: &Vec<PathSegment>, label_key: &Option<String>) -> (r: bool)
    ensures
        r == under_label(steps(p@), steps(q@), opt_text(*label_key)),
{
    let ghost sp = steps(p@);
    let ghost sq = steps(q@);
    match label_key {
        None => false,
        Some(lk) => {
            if p.len() == 0 || q.len() <= p.len() {
                return false;
            }
            let last = p.len() - 1;
            let ends_in_value = match &p[last] {
                PathSegment::Key(k) => same_text(k.as_str(), "value"),
                PathSegment::Index(_) => false,
            };
            if !ends_in_value {
                return false;
            }
            let at_label = match &q[last] {
                PathSegment::Key(k) => same_text(k.as_str(), lk.as_str()),
                PathSegment::Index(_) => false,
            };
            if !at_label {
                return false;
            }
            let mut m: usize = 0;
            while m < last
                invariant
                    sp == steps(p@),
                    sq == steps(q@),
                    last < p@.len() < q@.len(),
                    m <= last,
                    forall|j: int| 0 <= j < m ==> sp[j] == sq[j],
                decreases last - m,
            {
                if !same_segment(&p[m], &q[m]) {
                    assert(sp[m as int] != sq[m as int]);
                    assert(sq.take(last as int)[m as int] != sp.take(last as int)[m as int]);
                    return false;
                }
                m = m + 1;
            }
            assert(sq.take(last as int) =~= sp.take(last as int));
            true
        },
    }
}

impl OutputPath {
    /// Checks `paths_clash` between this path and a later one.
    fn clashes_with(&self, later: &OutputPath, label_key: &Option<String>) -> (r: bool)
        ensures
            r == paths_clash(self@, later@, opt_text(*label_key)),
    {
        let p = &self.segments;
        let q = &later.segments;
        let mut d: usize = 0;
        loop
            invariant
                self@ == steps(p@),
                later@ == steps(q@),
                d <= p@.len(),
                d <= q@.len(),
                first_difference(self@, later@, 0) == first_difference(self@, later@, d as int),
            ensures
                first_difference(self@, later@, 0) == d,
                d <= p@.len(),
                d <= q@.len(),
            decreases p@.len() - d,
        {
            if d >= p.len() || d >= q.len() {
                break;
            }
            if !same_segment(&p[d], &q[d]) {
                assert(self@[d as int] != later@[d as int]);
                break;
            }
            d = d + 1;
        }
        let kind_clash = d < p.len() && d < q.len() && !same_segment_kind(&p[d], &q[d]);
        kind_clash || beneath_label(p, q, label_key) || beneath_label(q, p, label_key)
    }
}

/// Whether `c` meets one of `existing` from index `k` on, checked in order:
/// `Some(true)` for an equal path, `Some(false)` for a parent or child path.
pub open spec fn path_conflict(existing: Seq<Seq<char>>, c: Seq<char>, k: int) -> Option<bool>
    decreases existing.len() - k,
{
    if k < 0 || k >= existing.len() {
        None
    } else if existing[k] == c {
        Some(true)
    } else if is_path_ancestor(existing[k], c) || is_path_ancestor(c, existing[k]) {
        Some(false)
    } else {
        path_conflict(existing, c, k + 1)
    }
}

/// Parsed path of the `k`-th mapping.
pub open spec fn mapped_path(fields: Seq<(String, String)>, k: int) -> Seq<PathStep> {
    parse_output_path(fields[k].1@).unwrap()
}

/// Canonical paths of the first `n` mappings.
pub open spec fn mapped_canonicals(fields: Seq<(String, String)>, n: int) -> Seq<Seq<char>> {
    Seq::new(n as nat, |k: int| canonical_text(mapped_path(fields, k)))
}

/// The first index, from `d` on, where two paths differ (the shorter length
/// when one leads into the other).
pub open spec fn first_difference(p: Seq<PathStep>, q: Seq<PathStep>, d: int) -> int
    decreases p.len() - d,
{
    if d < 0 || d >= p.len() || d >= q.len() || p[d] != q[d] {
        d
    } else {
        first_difference(p, q, d + 1)
    }
}

/// Both steps index an array, or both name an object key.
pub open spec fn same_kind(a: PathStep, b: PathStep) -> bool {
    (a is Index) == (b is Index)
}

/// `p` ends in the key `value`, and `q` goes on beneath the label key that
/// writing `p` adds beside that leaf.
pub open spec fn under_label(p: Seq<PathStep>, q: Seq<PathStep>, label_key: Option<Seq<char>>) -> bool {
    &&& label_key is Some
    &&& p.len() > 0
    &&& p.last() == PathStep::Key("value"@)
    &&& q.len() > p.len()
    &&& q.take(p.len() - 1) == p.take(p.len() - 1)
    &&& q[p.len() - 1] == PathStep::Key(label_key->0)
}

/// Two paths that cannot both be written: where they part, one needs an array
/// and the other an object, or one goes on beneath the label the other adds.
pub open spec fn paths_clash(p: Seq<PathStep>, q: Seq<PathStep>, label_key: Option<Seq<char>>) -> bool {
    let d = first_difference(p, q, 0);
    ||| (d < p.len() && d < q.len() && !same_kind(p[d], q[d]))
    ||| under_label(p, q, label_key)
    ||| under_label(q, p, label_key)
}

/// What is wrong with the `i`-th mapping of a provider, given that the earlier ones are fine.
pub open spec fn mapping_issue(
    provider: Seq<char>,
    fields: Seq<(String, String)>,
    label_key: Option<Seq<char>>,
    i: int,
) -> Option<ValidationIssue> {
    let field = fields[i].0@;
    let path = fields[i].1@;
    if !is_event_field(field) {
        Some(ValidationIssue::UnknownWebhookProviderField { provider, field })
    } else if exists|k: int| 0 <= k < i && #[trigger] fields[k].0@ == field {
        Some(ValidationIssue::DuplicateWebhookProviderField { provider, field })
    } else {
        match parse_output_path(path) {
            None => Some(ValidationIssue::InvalidWebhookProviderPath { provider, field, path }),
            Some(steps) => match path_conflict(mapped_canonicals(fields, i), canonical_text(steps), 0) {
                Some(true) => Some(ValidationIssue::DuplicateWebhookProviderPath { provider, path }),
                Some(false) => Some(ValidationIssue::CollidingWebhookProviderPath { provider, path }),
                None => if exists|k: int|
                    0 <= k < i && #[trigger] paths_clash(mapped_path(fields, k), steps, label_key) {
                    Some(ValidationIssue::CollidingWebhookProviderPath { provider, path })
                } else {
                    None
                },
            },
        }
    }
}

/// The first issue among the mappings from index `i` on.
pub open spec fn first_mapping_issue(
    provider: Seq<char>,
    fields: Seq<(String, String)>,
    label_key: Option<Seq<char>>,
    i: int,
) -> Option<ValidationIssue>
    decreases fields.len() - i,
{
    if i < 0 || i >= fields.len() {
        None
    } else {
        match mapping_issue(provider, fields, label_key, i) {
            Some(e) => Some(e),
            None => first_mapping_issue(provider, fields, label_key, i + 1),
        }
    }
}

/// A compiled provider, as a mathematical value.
pub struct TemplateModel {
    pub label_key: Option<Seq<char>>,
    pub fields: Seq<(Seq<char>, Seq<PathStep>)>,
}

/// Compilation of a provider map: empty maps, bad label keys, unknown or
/// repeated fields, invalid paths, duplicate or nested output paths, and paths
/// that clash with an earlier one are rejected, in that order of checks and in
/// map order.
pub open spec fn compile_outcome(provider: Seq<char>, config: WebhookProviderConfig) -> Result<
    TemplateModel,
    ValidationIssue,
> {
    let fields = config.fields@;
    if fields.len() == 0 {
        Err(ValidationIssue::WebhookProviderMapMustNotBeEmpty { provider })
    } else if config.field_label_key is Some && !is_valid_key(config.field_label_key->0@) {
        Err(
            ValidationIssue::InvalidWebhookProviderLabelKey {
                provider,
                label_key: config.field_label_key->0@,
            },
        )
    } else {
        match first_mapping_issue(provider, fields, opt_text(config.field_label_key), 0) {
            Some(e) => Err(e),
            None => Ok(
                TemplateModel {
                    label_key: opt_text(config.field_label_key),
                    fields: Seq::new(
                        fields.len(),
                        |k: int| (fields[k].0@, mapped_path(fields, k)),
                    ),
                },
            ),
        }
    }
}

/// One event field and the path it is written to.
#[derive(Debug, PartialEq, Eq)]
pub struct ProviderFieldMapping {
    field: String,
    path: OutputPath,
}

impl View for ProviderFieldMapping {
    type V = (Seq<char>, Seq<PathStep>);

    closed spec fn view(&self) -> (Seq<char>, Seq<PathStep>) {
        (self.field@, self.path@)
    }
}

/// A provider map compiled into parsed paths.
#[derive(Debug, PartialEq, Eq)]
pub struct ProviderTemplate {
    field_label_key: Option<String>,
    fields: Vec<ProviderFieldMapping>,
}

impl View for ProviderTemplate {
    type V = TemplateModel;

    closed spec fn view(&self) -> TemplateModel {
        TemplateModel {
            label_key: opt_text(self.field_label_key),
            fields: self.fields@.map_values(|m: ProviderFieldMapping| m@),
        }
    }
}

impl ProviderTemplate {
    /// Validates a provider's event-field-to-output-path map and compiles its paths.
    #[verifier::loop_isolation(false)]
    pub fn compile(provider_name: &str, provider: &WebhookProviderConfig) -> (r: Result<
        ProviderTemplate,
        ConfigValidationError,
    >)
        ensures
            match r {
                Ok(t) => compile_outcome(provider_name@, *provider) == Ok::<
                    TemplateModel,
                    ValidationIssue,
                >(t@),
                Err(e) => compile_outcome(provider_name@, *provider) == Err::<
                    TemplateModel,
                    ValidationIssue,
                >(e@),
            },
    {
        let ghost pn = provider_name@;
        let ghost fs = provider.fields@;
        if provider.fields.len() == 0 {
            return Err(
                ConfigValidationError::WebhookProviderMapMustNotBeEmpty {
                    provider: provider_name.to_owned(),
                },
            );
        }
        let field_label_key = match &provider.field_label_key {
            Some(key) => {
                if !valid_key(key.as_str()) {
                    return Err(
                        ConfigValidationError::InvalidWebhookProviderLabelKey {
                            provider: provider_name.to_owned(),
                            label_key: key.clone(),
                        },
                    );
                }
                Some(key.clone())
            },
            None => None,
        };
        let mut target_paths: Vec<String> = Vec::new();
        let mut fields: Vec<ProviderFieldMapping> = Vec::new();
        let mut i: usize = 0;
        while i < provider.fields.len()
            invariant
                fs == provider.fields@,
                pn == provider_name@,
                fs.len() > 0,
                !(provider.field_label_key is Some && !is_valid_key(
                    provider.field_label_key->0@,
                )),
                opt_text(field_label_key) == opt_text(provider.field_label_key),
                i <= fs.len(),
                first_mapping_issue(pn, fs, opt_text(provider.field_label_key), 0)
                    == first_mapping_issue(pn, fs, opt_text(provider.field_label_key), i as int),
                texts(target_paths@) == mapped_canonicals(fs, i as int),
                fields@.map_values(|m: ProviderFieldMapping| m@) == Seq::new(
                    i as nat,
                    |k: int| (fs[k].0@, mapped_path(fs, k)),
                ),
            decreases fs.len() - i,
        {
            let entry = &provider.fields[i];
            let field = &entry.0;
            let path = &entry.1;
            if !event_field(field.as_str()) {
                return Err(
                    ConfigValidationError::UnknownWebhookProviderField {
                        provider: provider_name.to_owned(),
                        field: field.clone(),
                    },
                );
            }
            let mut k: usize = 0;
            while k < i
                invariant
                    fs == provider.fields@,
                    i < fs.len(),
                    field@ == fs[i as int].0@,
                    k <= i,
                    forall|m: int| 0 <= m < k ==> #[trigger] fs[m].0@ != field@,
                decreases i - k,
            {
                if same_text(provider.fields[k].0.as_str(), field.as_str()) {
                    assert(fs[k as int].0@ == fs[i as int].0@);
                    return Err(
                        ConfigValidationError::DuplicateWebhookProviderField {
                            provider: provider_name.to_owned(),
                            field: field.clone(),
                        },
                    );
                }
                k = k + 1;
            }
            let output_path = match OutputPath::parse(path.as_str()) {
                Ok(p) => p,
                Err(_) => {
                    return Err(
                        ConfigValidationError::InvalidWebhookProviderPath {
                            provider: provider_name.to_owned(),
                            field: field.clone(),
                            path: path.clone(),
                        },
                    );
                },
            };
            let canonical = output_path.canonical();
            let ghost existing = texts(target_paths@);
            let mut k: usize = 0;
            while k < target_paths.len()
                invariant
                    existing == texts(target_paths@),
                    k <= target_paths@.len(),
                    path_conflict(existing, canonical@, 0) == path_conflict(existing, canonical@, k as int),
                decreases target_paths@.len() - k,
            {
                let known = &target_paths[k];
                assert(known@ == existing[k as int]);
                if same_text(known.as_str(), canonical.as_str()) {
                    return Err(
                        ConfigValidationError::DuplicateWebhookProviderPath {
                            provider: provider_name.to_owned(),
                            path: path.clone(),
                        },
                    );
                }
                if path_is_ancestor(known.as_str(), canonical.as_str()) || path_is_ancestor(
                    canonical.as_str(),
                    known.as_str(),
                ) {
                    return Err(
                        ConfigValidationError::CollidingWebhookProviderPath {
                            provider: provider_name.to_owned(),
                            path: path.clone(),
                        },
                    );
                }
                k = k + 1;
            }
            let mut k: usize = 0;
            while k < fields.len()
                invariant
                    fields@.len() == i,
                    fields@.map_values(|m: ProviderFieldMapping| m@) == Seq::new(
                        i as nat,
                        |m: int| (fs[m].0@, mapped_path(fs, m)),
                    ),
                    k <= i,
                    forall|m: int|
                        0 <= m < k ==> !#[trigger] paths_clash(
                            mapped_path(fs, m),
                            output_path@,
                            opt_text(provider.field_label_key),
                        ),
                decreases i - k,
            {
                assert(fields@[k as int]@ == fields@.map_values(|m: ProviderFieldMapping| m@)[k as int]);
                if fields[k].path.clashes_with(&output_path, &provider.field_label_key) {
                    assert(paths_clash(mapped_path(fs, k as int), output_path@, opt_text(provider.field_label_key)));
                    return Err(
                        ConfigValidationError::CollidingWebhookProviderPath {
                            provider: provider_name.to_owned(),
                            path: path.clone(),
                        },
                    );
                }
                k = k + 1;
            }
            let ghost before_paths = target_paths@;
            let ghost before_fields = fields@;
            let ghost op = output_path@;
            assert(path@ == fs[i as int].1@);
            assert(mapped_path(fs, i as int) == op);
            let ghost ctext = canonical@;
            target_paths.push(canonical);
            assert(texts(target_paths@) =~= texts(before_paths).push(ctext));
            let mapping = ProviderFieldMapping { field: field.clone(), path: output_path };
            assert(mapping@ == (fs[i as int].0@, op));
            fields.push(mapping);
            assert(fields@.map_values(|m: ProviderFieldMapping| m@) =~= before_fields.map_values(
                |m: ProviderFieldMapping| m@,
            ).push((fs[i as int].0@, op)));
            assert(texts(target_paths@) =~= mapped_canonicals(fs, i + 1));
            assert(fields@.map_values(|m: ProviderFieldMapping| m@) =~= Seq::new(
                (i + 1) as nat,
                |k: int| (fs[k].0@, mapped_path(fs, k)),
            ));
            i = i + 1;
        }
        Ok(ProviderTemplate { field_label_key, fields })
    }
}


/// What `char::to_uppercase` yields for a character.
pub uninterp spec fn uppercase_of(c: char) -> Seq<char>;

/// `char::to_uppercase`, collected. For `a`..`z` it is the one matching capital letter.
#[verifier::external_body]
fn char_uppercase(c: char) -> (r: String)
    ensures
        r@ == uppercase_of(c),
        'a' <= c && c <= 'z' ==> r@ == seq![((c as u32) - 32) as char],
{
    c.to_uppercase().collect()
}

/// The label being built after reading `s`, and whether the next letter is capitalized.
pub open spec fn label_state(s: Seq<char>) -> (Seq<char>, bool)
    decreases s.len(),
{
    if s.len() == 0 {
        (Seq::empty(), true)
    } else {
        let prev = label_state(s.drop_last());
        let acc = prev.0;
        let c = s.last();
        if c == '_' || c == '-' {
            (
                if acc.len() > 0 && acc.last() == ' ' {
                    acc
                } else {
                    acc.push(' ')
                },
                true,
            )
        } else if prev.1 {
            (acc + uppercase_of(c), false)
        } else {
            (acc.push(c), false)
        }
    }
}

/// A human label for a field name: `_` and `-` become one space and the
/// letter after each (and the first) is upper-cased.
pub open spec fn field_label(s: Seq<char>) -> Seq<char> {
    label_state(s).0
}

/// Builds `field_label`.
pub fn human_field_label(field: &str) -> (r: String)
    ensures
        r@ == field_label(field@),
{
    let cs = chars_of(field);
    let mut acc: Vec<char> = Vec::new();
    let mut capitalize_next = true;
    let mut i: usize = 0;
    while i < cs.len()
        invariant
            cs@ == field@,
            i <= cs@.len(),
            (acc@, capitalize_next) == label_state(field@.take(i as int)),
        decreases cs@.len() - i,
    {
        let c = cs[i];
        assert(field@.take(i + 1).drop_last() =~= field@.take(i as int));
        if c == '_' || c == '-' {
            let n: usize = acc.len();
            if !(n > 0 && acc[n - 1] == ' ') {
                acc.push(' ');
            }
            capitalize_next = true;
        } else if capitalize_next {
            let upper = char_uppercase(c);
            let us = chars_of(upper.as_str());
            let ghost before = acc@;
            let mut k: usize = 0;
            while k < us.len()
                invariant
                    k <= us@.len(),
                    acc@ == before + us@.take(k as int),
                decreases us@.len() - k,
            {
                acc.push(us[k]);
                assert(us@.take(k + 1) =~= us@.take(k as int).push(us@[k as int]));
                k = k + 1;
            }
            assert(us@.take(us@.len() as int) =~= us@);
            capitalize_next = false;
        } else {
            acc.push(c);
            capitalize_next = false;
        }
        i = i + 1;
    }
    assert(field@.take(field@.len() as int) =~= field@);
    crate::text::string_from_chars(acc.as_slice())
}

/// The text of an event field, for the canonical field names.
pub open spec fn event_field_text(e: VentEvent, f: Seq<char>) -> Option<Seq<char>> {
    if f == "id"@ {
        Some(e.id@)
    } else if f == "timestamp"@ {
        Some(e.timestamp@)
    } else if f == "channel"@ {
        Some(e.channel@)
    } else if f == "message"@ {
        Some(e.message@)
    } else if f == "project"@ {
        Some(e.project@)
    } else {
        None
    }
}

/// The canonical event as a JSON object with its five fields.
pub open spec fn event_json(e: VentEvent) -> Json {
    Json::Object(
        seq![
            ("id"@, Json::Str(e.id@)),
            ("timestamp"@, Json::Str(e.timestamp@)),
            ("channel"@, Json::Str(e.channel@)),
            ("message"@, Json::Str(e.message@)),
            ("project"@, Json::Str(e.project@)),
        ],
    )
}

/// The canonical event as JSON, as its serialization gives it.
pub fn event_value(e: &VentEvent) -> (r: JsonValue)
    ensures
        json_of(r) == event_json(*e),
{
    let mut entries: Vec<(String, JsonValue)> = Vec::new();
    entries.push(("id".to_owned(), JsonValue::String(e.id.as_str().to_owned())));
    entries.push(("timestamp".to_owned(), JsonValue::String(e.timestamp.clone())));
    entries.push(("channel".to_owned(), JsonValue::String(e.channel.clone())));
    entries.push(("message".to_owned(), JsonValue::String(e.message.clone())));
    entries.push(("project".to_owned(), JsonValue::String(e.project.clone())));
    let r = JsonValue::Object(entries);
    proof {
        crate::json::lemma_object_json(entries);
        assert(crate::json::entries_json(entries@) =~= seq![
            ("id"@, Json::Str(e.id@)),
            ("timestamp"@, Json::Str(e.timestamp@)),
            ("channel"@, Json::Str(e.channel@)),
            ("message"@, Json::Str(e.message@)),
            ("project"@, Json::Str(e.project@)),
        ]);
    }
    r
}

/// The event field named `f`.
fn event_field_value(e: &VentEvent, f: &str) -> (r: Option<String>)
    ensures
        opt_text(r) == event_field_text(*e, f@),
{
    if same_text(f, "id") {
        Some(e.id.as_str().to_owned())
    } else if same_text(f, "timestamp") {
        Some(e.timestamp.clone())
    } else if same_text(f, "channel") {
        Some(e.channel.clone())
    } else if same_text(f, "message") {
        Some(e.message.clone())
    } else if same_text(f, "project") {
        Some(e.project.clone())
    } else {
        None
    }
}

/// Text appended to an insertion error.
pub open spec fn path_error_suffix(path: Seq<PathStep>) -> Seq<char> {
    " in webhook provider path: "@ + canonical_text(path)
}

/// Rendering of the template's mappings from index `i` on into `payload`.
pub open spec fn render_from(t: TemplateModel, e: VentEvent, i: int, payload: Json) -> Result<
    Json,
    Seq<char>,
>
    decreases t.fields.len() - i,
{
    if i < 0 || i >= t.fields.len() {
        Ok(payload)
    } else {
        let field = t.fields[i].0;
        let path = t.fields[i].1;
        match event_field_text(e, field) {
            None => Err("unknown webhook provider field: "@ + field),
            Some(v) => if path.len() == 0 || !(path[0] is Key) {
                Err("invalid webhook provider path"@ + path_error_suffix(path))
            } else {
                match insert_at(payload, path, Json::Str(v), t.label_key, field_label(field)) {
                    Err(m) => Err(m + path_error_suffix(path)),
                    Ok(next) => render_from(t, e, i + 1, next),
                }
            },
        }
    }
}

/// The webhook body a template makes of an event: an object built by writing
/// each mapped field at its path, in map order.
pub open spec fn rendered(t: TemplateModel, e: VentEvent) -> Result<Json, Seq<char>> {
    render_from(t, e, 0, Json::Object(Seq::empty()))
}

impl ProviderTemplate {
    /// Renders the webhook body for an event.
    pub fn render(&self, event: &VentEvent) -> (r: Result<JsonValue, String>)
        ensures
            match r {
                Ok(v) => rendered(self@, *event) == Ok::<Json, Seq<char>>(json_of(v)),
                Err(m) => rendered(self@, *event) == Err::<Json, Seq<char>>(m@),
            },
    {
        let start: Vec<(String, JsonValue)> = Vec::new();
        proof {
            crate::json::lemma_object_json(start);
            assert(crate::json::entries_json(start@) =~= Seq::<(Seq<char>, Json)>::empty());
        }
        let mut payload = JsonValue::Object(start);
        let label_key: Option<&str> = match &self.field_label_key {
            Some(k) => Some(k.as_str()),
            None => None,
        };
        let mut i: usize = 0;
        while i < self.fields.len()
            invariant
                i <= self.fields@.len(),
                self@.fields.len() == self.fields@.len(),
                self@.label_key == match label_key {
                    Some(k) => Some(k@),
                    None => None::<Seq<char>>,
                },
                rendered(self@, *event) == render_from(self@, *event, i as int, json_of(payload)),
            decreases self.fields@.len() - i,
        {
            let mapping = &self.fields[i];
            assert(self@.fields[i as int] == (mapping.field@, mapping.path@));
            let value = match event_field_value(event, mapping.field.as_str()) {
                Some(v) => v,
                None => {
                    let mut m = "unknown webhook provider field: ".to_owned();
                    m.append(mapping.field.as_str());
                    proof {
                        assert(event_field_text(*event, mapping.field@) is None);
                        assert(render_from(self@, *event, i as int, json_of(payload)) == Err::<
                            Json,
                            Seq<char>,
                        >(m@));
                    }
                    return Err(m);
                },
            };
            let label = human_field_label(mapping.field.as_str());
            let segments = &mapping.path.segments;
            let first_is_key = segments.len() > 0 && match &segments[0] {
                PathSegment::Key(_) => true,
                PathSegment::Index(_) => false,
            };
            if !first_is_key {
                let mut m = "invalid webhook provider path".to_owned();
                m.append(" in webhook provider path: ");
                let canonical = mapping.path.canonical();
                m.append(canonical.as_str());
                proof {
                    let path = mapping.path@;
                    assert(!(path.len() > 0 && path[0] is Key));
                    assert(m@ =~= "invalid webhook provider path"@ + path_error_suffix(path));
                    assert(render_from(self@, *event, i as int, json_of(payload)) == Err::<
                        Json,
                        Seq<char>,
                    >(m@));
                }
                return Err(m);
            }
            match insert_value(
                payload,
                segments.as_slice(),
                JsonValue::String(value),
                label_key,
                label.as_str(),
            ) {
                Ok(next) => {
                    payload = next;
                },
                Err(e) => {
                    let mut m = e;
                    m.append(" in webhook provider path: ");
                    let canonical = mapping.path.canonical();
                    m.append(canonical.as_str());
                    proof {
                        assert(m@ =~= e@ + path_error_suffix(mapping.path@));
                    }
                    return Err(m);
                },
            }
            i = i + 1;
        }
        Ok(payload)
    }
}

/// The body a webhook sink posts for an event.
pub open spec fn webhook_body(rc: RuntimeConfig, sink: WebhookSinkConfig, e: VentEvent) -> Result<
    Json,
    Seq<char>,
> {
    match sink.provider {
        None => Ok(event_json(e)),
        Some(p) => {
            let name = trimmed(p@);
            if name == "raw"@ {
                Ok(event_json(e))
            } else if exists|k: int|
                0 <= k < rc.templates().len() && #[trigger] rc.templates()[k].0 == name {
                let k = choose|k: int|
                    0 <= k < rc.templates().len() && #[trigger] rc.templates()[k].0 == name && forall|
                        m: int,
                    |
                        0 <= m < k ==> rc.templates()[m].0 != name;
                rendered(rc.templates()[k].1, e)
            } else {
                Err("unknown webhook provider: "@ + name)
            }
        },
    }
}

/// Renders a webhook sink's body: the canonical event for no provider or `raw`,
/// otherwise the named provider's rendering.
pub fn webhook_payload(runtime_config: &RuntimeConfig, sink_config: &WebhookSinkConfig, event: &VentEvent) -> (r:
    Result<JsonValue, String>)
    ensures
        match r {
            Ok(v) => webhook_body(*runtime_config, *sink_config, *event) == Ok::<Json, Seq<char>>(
                json_of(v),
            ),
            Err(m) => webhook_body(*runtime_config, *sink_config, *event) == Err::<Json, Seq<char>>(
                m@,
            ),
        },
{
    match &sink_config.provider {
        None => Ok(event_value(event)),
        Some(raw) => {
            let name = trim_text(raw.as_str());
            if same_text(name.as_str(), "raw") {
                return Ok(event_value(event));
            }
            match runtime_config.webhook_provider(name.as_str()) {
                Some(template) => {
                    proof {
                        let rc = *runtime_config;
                        let k = choose|k: int|
                            0 <= k < rc.templates().len() && #[trigger] rc.templates()[k].0 == name@
                                && rc.templates()[k].1 == template@ && forall|m: int|
                                0 <= m < k ==> rc.templates()[m].0 != name@;
                        let k2 = choose|k: int|
                            0 <= k < rc.templates().len() && #[trigger] rc.templates()[k].0 == name@
                                && forall|m: int| 0 <= m < k ==> rc.templates()[m].0 != name@;
                        assert(k == k2) by {
                            if k < k2 {
                                assert(rc.templates()[k].0 == name@);
                            } else if k2 < k {
                                assert(rc.templates()[k2].0 == name@);
                            }
                        }
                    }
                    template.render(event)
                },
                None => {
                    let mut m = "unknown webhook provider: ".to_owned();
                    m.append(name.as_str());
                    Err(m)
                },
            }
        },
    }
}


proof fn lemma_decimal_digits(n: nat)
    ensures
        decimal(n).len() > 0,
        forall|i: int| 0 <= i < decimal(n).len() ==> #[trigger] is_digit(decimal(n)[i]),
        digits_value(decimal(n)) == n,
    decreases n,
{
    assert(digit_char(n % 10) as int == 48 + n % 10);
    if n < 10 {
        assert(decimal(n).drop_last() =~= Seq::<char>::empty());
        assert(n % 10 == n);
        assert(decimal(n).last() == digit_char(n));
        assert(digits_value(decimal(n)) == digits_value(Seq::<char>::empty()) * 10 + ((digit_char(n) as int) - 48) as nat);
    } else {
        lemma_decimal_digits(n / 10);
        let d = decimal(n);
        assert(d == decimal(n / 10).push(digit_char(n % 10)));
        assert(d.drop_last() =~= decimal(n / 10));
        assert(n == (n / 10) * 10 + n % 10);
        assert(d.last() == digit_char(n % 10));
        assert(digits_value(d) == digits_value(decimal(n / 10)) * 10 + ((digit_char(n % 10) as int) - 48) as nat);
        assert forall|i: int| 0 <= i < d.len() implies #[trigger] is_digit(d[i]) by {
            if i < d.len() - 1 {
                assert(d[i] == decimal(n / 10)[i]);
            }
        }
    }
}

proof fn lemma_step_text_round_trip(q: Seq<char>, j: int)
    requires
        piece_ok(q, j),
    ensures
        is_valid_key(step_text(step_of(q))),
        piece_ok(step_text(step_of(q)), j),
        step_of(step_text(step_of(q))) == step_of(q),
{
    match parsed_usize(q) {
        Some(v) => {
            let t = decimal(v);
            lemma_decimal_digits(v);
            assert(is_digit(t[0]));
            assert(unsigned_part(t) == t);
            assert(parsed_usize(t) == Some(v));
            assert forall|i: int| 0 <= i < t.len() implies #[trigger] is_key_char(t[i]) by {
                assert(is_digit(t[i]));
            }
        },
        None => {},
    }
}

proof fn lemma_split_plain_suffix(x: Seq<char>, b: Seq<char>)
    requires
        forall|i: int| 0 <= i < b.len() ==> #[trigger] b[i] != '.',
    ensures
        split_on(x + b, '.') == split_on(x, '.').update(
            split_on(x, '.').len() - 1,
            split_on(x, '.').last() + b,
        ),
        split_on(x + b, '.').len() == split_on(x, '.').len(),
    decreases b.len(),
{
    lemma_split_on_len(x, '.');
    if b.len() == 0 {
        assert(x + b =~= x);
        assert(split_on(x, '.').last() + b =~= split_on(x, '.').last());
        assert(split_on(x, '.').update(split_on(x, '.').len() - 1, split_on(x, '.').last())
            =~= split_on(x, '.'));
    } else {
        let b0 = b.drop_last();
        lemma_split_plain_suffix(x, b0);
        assert((x + b).drop_last() =~= x + b0);
        assert((x + b).last() == b.last());
        assert(split_on(x, '.').last() + b =~= (split_on(x, '.').last() + b0).push(b.last()));
        assert(split_on(x + b, '.') =~= split_on(x, '.').update(
            split_on(x, '.').len() - 1,
            split_on(x, '.').last() + b,
        ));
    }
}

proof fn lemma_split_join(parts: Seq<Seq<char>>)
    requires
        parts.len() > 0,
        forall|k: int, i: int| 0 <= k < parts.len() && 0 <= i < parts[k].len() ==> #[trigger] parts[k][i] != '.',
    ensures
        split_dots(join_dots(parts)) == parts,
    decreases parts.len(),
{
    let last = parts.last();
    assert forall|i: int| 0 <= i < last.len() implies #[trigger] last[i] != '.' by {
        assert(parts[parts.len() - 1][i] != '.');
    }
    if parts.len() == 1 {
        lemma_split_plain_suffix(Seq::empty(), last);
        assert(Seq::<char>::empty() + last =~= last);
        assert(split_dots(join_dots(parts)) =~= parts);
    } else {
        let init = parts.drop_last();
        assert forall|k: int, i: int| 0 <= k < init.len() && 0 <= i < init[k].len() implies #[trigger] init[k][i] != '.' by {
            assert(init[k] == parts[k]);
        }
        lemma_split_join(init);
        let x = join_dots(init) + seq!['.'];
        lemma_split_plain_suffix(x, last);
        assert(join_dots(parts) == x + last);
        assert(x.drop_last() =~= join_dots(init));
        assert(split_on(x, '.') == init.push(Seq::<char>::empty()));
        assert(Seq::<char>::empty() + last =~= last);
        assert(split_dots(join_dots(parts)) =~= parts);
    }
}

proof fn lemma_join_ends(parts: Seq<Seq<char>>)
    requires
        parts.len() > 0,
        forall|k: int| 0 <= k < parts.len() ==> (#[trigger] parts[k]).len() > 0,
    ensures
        join_dots(parts).len() > 0,
        join_dots(parts)[0] == parts[0][0],
        join_dots(parts).last() == parts.last().last(),
    decreases parts.len(),
{
    if parts.len() > 1 {
        let init = parts.drop_last();
        assert forall|k: int| 0 <= k < init.len() implies (#[trigger] init[k]).len() > 0 by {
            assert(init[k] == parts[k]);
        }
        lemma_join_ends(init);
        assert(init[0] == parts[0]);
        assert(parts[parts.len() - 1].len() > 0);
    } else {
        assert(parts[0].len() > 0);
    }
}

/// A path's canonical form parses back to that same path: writing keys as
/// they are and indices in decimal loses nothing that parsing reads.
pub proof fn lemma_canonical_path_round_trip(raw: Seq<char>)
    requires
        parse_output_path(raw) is Some,
    ensures
        parse_output_path(canonical_text(parse_output_path(raw)->0)) == parse_output_path(raw),
{
    let pieces = split_dots(trimmed(raw));
    let path = pieces.map_values(|q: Seq<char>| step_of(q));
    assert(parse_output_path(raw) == Some(path));
    let parts = path.map_values(|st: PathStep| step_text(st));
    let c = canonical_text(path);
    assert(c == join_dots(parts));
    lemma_split_on_len(trimmed(raw), '.');
    assert forall|k: int| 0 <= k < parts.len() implies is_valid_key(#[trigger] parts[k]) && piece_ok(parts[k], k)
        && step_of(parts[k]) == path[k] by {
        assert(piece_ok(pieces[k], k));
        lemma_step_text_round_trip(pieces[k], k);
    }
    assert forall|k: int, i: int| 0 <= k < parts.len() && 0 <= i < parts[k].len() implies #[trigger] parts[k][i] != '.' by {
        assert(is_valid_key(parts[k]));
        assert(is_key_char(parts[k][i]));
    }
    assert forall|k: int| 0 <= k < parts.len() implies (#[trigger] parts[k]).len() > 0 by {
        assert(is_valid_key(parts[k]));
    }
    lemma_split_join(parts);
    lemma_join_ends(parts);
    let last = parts.last();
    assert(is_valid_key(last));
    assert(is_key_char(last[last.len() - 1]));
    assert(is_key_char(parts[0][0]));
    assert(first_non_ws_from(c, 0) == 0);
    assert(non_ws_end_before(c, c.len() as int) == c.len());
    assert(trimmed(c) =~= c);
    assert(split_dots(trimmed(c)) == parts);
    assert(parts.map_values(|q: Seq<char>| step_of(q)) =~= path);
}

proof fn lemma_join_dots_append(a: Seq<Seq<char>>, b: Seq<Seq<char>>)
    requires
        a.len() > 0,
        b.len() > 0,
    ensures
        join_dots(a + b) == join_dots(a) + seq!['.'] + join_dots(b),
    decreases b.len(),
{
    if b.len() == 1 {
        assert((a + b).drop_last() =~= a);
        assert((a + b).last() == b[0]);
    } else {
        lemma_join_dots_append(a, b.drop_last());
        assert((a + b).drop_last() =~= a + b.drop_last());
        assert((a + b).last() == b.last());
        assert(join_dots(a + b) =~= join_dots(a) + seq!['.'] + join_dots(b));
    }
}

/// A path that leads into another has a canonical form that is a parent of the
/// other's (or the same, for the same path).
proof fn lemma_step_prefix_canonical(p: Seq<PathStep>, q: Seq<PathStep>)
    requires
        is_step_prefix(p, q),
        p.len() > 0,
    ensures
        p.len() == q.len() ==> canonical_text(p) == canonical_text(q),
        p.len() < q.len() ==> is_path_ancestor(canonical_text(p), canonical_text(q)),
{
    if p.len() == q.len() {
        assert(q.take(p.len() as int) =~= q);
    } else {
        let parts_q = q.map_values(|st: PathStep| step_text(st));
        let parts_p = p.map_values(|st: PathStep| step_text(st));
        let rest = q.skip(p.len() as int).map_values(|st: PathStep| step_text(st));
        assert(parts_q =~= parts_p + rest);
        lemma_join_dots_append(parts_p, rest);
        let a = canonical_text(p);
        let d = canonical_text(q);
        assert(d == a + seq!['.'] + join_dots(rest));
        assert(d.take(a.len() as int) =~= a);
        assert(d[a.len() as int] == '.');
    }
}

proof fn lemma_no_conflict(existing: Seq<Seq<char>>, c: Seq<char>, k: int)
    requires
        0 <= k,
        path_conflict(existing, c, k) is None,
    ensures
        forall|m: int|
            k <= m < existing.len() ==> #[trigger] existing[m] != c && !is_path_ancestor(existing[m], c)
                && !is_path_ancestor(c, existing[m]),
    decreases existing.len() - k,
{
    if k < existing.len() {
        lemma_no_conflict(existing, c, k + 1);
    }
}

proof fn lemma_no_mapping_issue(
    provider: Seq<char>,
    fields: Seq<(String, String)>,
    label_key: Option<Seq<char>>,
    i: int,
)
    requires
        0 <= i,
        first_mapping_issue(provider, fields, label_key, i) is None,
    ensures
        forall|m: int|
            i <= m < fields.len() ==> #[trigger] mapping_issue(provider, fields, label_key, m) is None,
    decreases fields.len() - i,
{
    if i < fields.len() {
        lemma_no_mapping_issue(provider, fields, label_key, i + 1);
    }
}

/// The output paths of a compiled provider are pairwise independent: no path
/// is another or leads into another.
proof fn lemma_compiled_paths_independent(provider: Seq<char>, config: WebhookProviderConfig)
    requires
        compile_outcome(provider, config) is Ok,
    ensures
        forall|a: int, b: int|
            0 <= a < b < compile_outcome(provider, config)->Ok_0.fields.len() ==> independent_paths(
                #[trigger] compile_outcome(provider, config)->Ok_0.fields[a].1,
                #[trigger] compile_outcome(provider, config)->Ok_0.fields[b].1,
            ),
{
    let fields = config.fields@;
    let t = compile_outcome(provider, config)->Ok_0;
    let lk = opt_text(config.field_label_key);
    lemma_no_mapping_issue(provider, fields, lk, 0);
    assert forall|a: int, b: int| 0 <= a < b < t.fields.len() implies independent_paths(
        #[trigger] t.fields[a].1,
        #[trigger] t.fields[b].1,
    ) by {
        assert(mapping_issue(provider, fields, lk, a) is None);
        assert(mapping_issue(provider, fields, lk, b) is None);
        let pa = mapped_path(fields, a);
        let pb = mapped_path(fields, b);
        assert(t.fields[a].1 == pa);
        assert(t.fields[b].1 == pb);
        let existing = mapped_canonicals(fields, b);
        lemma_no_conflict(existing, canonical_text(pb), 0);
        assert(existing[a] == canonical_text(pa));
        lemma_split_on_len(trimmed(fields[a].1@), '.');
        lemma_split_on_len(trimmed(fields[b].1@), '.');
        assert(pa.len() > 0);
        assert(pb.len() > 0);
        if is_step_prefix(pa, pb) {
            lemma_step_prefix_canonical(pa, pb);
        }
        if is_step_prefix(pb, pa) {
            lemma_step_prefix_canonical(pb, pa);
        }
    }
}

proof fn lemma_render_from_keeps(t: TemplateModel, e: VentEvent, i: int, payload: Json)
    requires
        0 <= i <= t.fields.len(),
        render_from(t, e, i, payload) is Ok,
        forall|a: int, b: int|
            0 <= a < b < t.fields.len() ==> independent_paths(#[trigger] t.fields[a].1, #[trigger] t.fields[b].1),
        forall|k: int|
            0 <= k < i ==> (#[trigger] event_field_text(e, t.fields[k].0)) is Some && json_at(
                payload,
                t.fields[k].1,
            ) == Some(Json::Str(event_field_text(e, t.fields[k].0)->0)),
    ensures
        forall|k: int|
            0 <= k < t.fields.len() ==> (#[trigger] event_field_text(e, t.fields[k].0)) is Some && json_at(
                render_from(t, e, i, payload)->Ok_0,
                t.fields[k].1,
            ) == Some(Json::Str(event_field_text(e, t.fields[k].0)->0)),
    decreases t.fields.len() - i,
{
    if i < t.fields.len() {
        let field = t.fields[i].0;
        let path = t.fields[i].1;
        let v = event_field_text(e, field)->0;
        let next = insert_at(payload, path, Json::Str(v), t.label_key, field_label(field))->Ok_0;
        assert(render_from(t, e, i, payload) == render_from(t, e, i + 1, next));
        lemma_insert_reads_back(payload, path, Json::Str(v), t.label_key, field_label(field));
        assert forall|k: int| 0 <= k < i + 1 implies (#[trigger] event_field_text(e, t.fields[k].0)) is Some
            && json_at(next, t.fields[k].1) == Some(Json::Str(event_field_text(e, t.fields[k].0)->0)) by {
            if k < i {
                assert(independent_paths(t.fields[k].1, t.fields[i].1));
                lemma_insert_keeps_independent(
                    payload,
                    path,
                    Json::Str(v),
                    t.label_key,
                    field_label(field),
                    t.fields[k].1,
                    Json::Str(event_field_text(e, t.fields[k].0)->0),
                );
            }
        }
        lemma_render_from_keeps(t, e, i + 1, next);
    }
}

/// Pieces that are valid keys, each acceptable at its position and already in
/// canonical form, joined with `.`, parse to their steps, and that text is
/// the canonical form of those steps.
pub proof fn lemma_parse_plain_path(parts: Seq<Seq<char>>)
    requires
        parts.len() > 0,
        forall|k: int|
            0 <= k < parts.len() ==> piece_ok(#[trigger] parts[k], k) && is_valid_key(parts[k]) && step_text(
                step_of(parts[k]),
            ) == parts[k],
    ensures
        parse_output_path(join_dots(parts)) == Some(parts.map_values(|q: Seq<char>| step_of(q))),
        canonical_text(parts.map_values(|q: Seq<char>| step_of(q))) == join_dots(parts),
{
    let c = join_dots(parts);
    let path = parts.map_values(|q: Seq<char>| step_of(q));
    assert forall|k: int, i: int| 0 <= k < parts.len() && 0 <= i < parts[k].len() implies #[trigger] parts[k][i]
        != '.' by {
        assert(is_key_char(parts[k][i]));
    }
    assert forall|k: int| 0 <= k < parts.len() implies (#[trigger] parts[k]).len() > 0 by {
        assert(is_valid_key(parts[k]));
    }
    lemma_split_join(parts);
    lemma_join_ends(parts);
    let last = parts.last();
    assert(is_valid_key(last));
    assert(is_key_char(last[last.len() - 1]));
    assert(is_valid_key(parts[0]));
    assert(is_key_char(parts[0][0]));
    assert(first_non_ws_from(c, 0) == 0);
    assert(non_ws_end_before(c, c.len() as int) == c.len());
    assert(trimmed(c) =~= c);
    assert(forall|k: int| 0 <= k < parts.len() ==> #[trigger] piece_ok(split_dots(trimmed(c))[k], k));
    assert(path.map_values(|st: PathStep| step_text(st)) =~= parts);
}

/// A key that starts with a lowercase letter is a piece at any position, and
/// its own canonical form.
pub proof fn lemma_letter_key_piece(k: Seq<char>, j: int)
    requires
        is_valid_key(k),
        'a' <= k[0] <= 'z',
    ensures
        piece_ok(k, j),
        step_of(k) == PathStep::Key(k),
        step_text(step_of(k)) == k,
{
    assert(unsigned_part(k) == k);
    assert(!is_digit(k[0]));
    assert(parsed_usize(k) is None);
}

/// A map whose paths are distinct single keys that start with a lowercase
/// letter, and whose fields are distinct event fields, compiles.
pub proof fn lemma_flat_map_compiles(provider: Seq<char>, config: WebhookProviderConfig)
    requires
        config.fields@.len() > 0,
        config.field_label_key is Some ==> is_valid_key(config.field_label_key->0@),
        forall|k: int|
            0 <= k < config.fields@.len() ==> is_event_field(#[trigger] config.fields@[k].0@) && is_valid_key(
                config.fields@[k].1@,
            ) && 'a' <= config.fields@[k].1@[0] <= 'z',
        forall|a: int, b: int|
            #![trigger config.fields@[a], config.fields@[b]]
            0 <= a < b < config.fields@.len() ==> config.fields@[a].0@ != config.fields@[b].0@
                && config.fields@[a].1@ != config.fields@[b].1@,
    ensures
        compile_outcome(provider, config) is Ok,
{
    let fields = config.fields@;
    let lk = opt_text(config.field_label_key);
    assert forall|k: int| 0 <= k < fields.len() implies parse_output_path(#[trigger] fields[k].1@) == Some(
        seq![PathStep::Key(fields[k].1@)],
    ) && canonical_text(seq![PathStep::Key(fields[k].1@)]) == fields[k].1@ by {
        let key = fields[k].1@;
        assert(is_event_field(fields[k].0@));
        lemma_letter_key_piece(key, 0);
        let parts = seq![key];
        lemma_parse_plain_path(parts);
        assert(join_dots(parts) == key);
        assert(parts.map_values(|q: Seq<char>| step_of(q)) =~= seq![PathStep::Key(key)]);
    }
    assert forall|a: int, b: int|
        #![trigger fields[a], fields[b]]
        0 <= a < b < fields.len() implies fields[a].0@ != fields[b].0@ && paths_compatible(
            mapped_path(fields, a),
            mapped_path(fields, b),
            lk,
        ) by {
        let ka = fields[a].1@;
        let kb = fields[b].1@;
        assert(parse_output_path(fields[a].1@) == Some(seq![PathStep::Key(ka)]));
        assert(parse_output_path(fields[b].1@) == Some(seq![PathStep::Key(kb)]));
        let pa = mapped_path(fields, a);
        let pb = mapped_path(fields, b);
        assert(canonical_text(pa) == ka);
        assert(canonical_text(pb) == kb);
        assert(is_valid_key(ka) && is_valid_key(kb));
        if is_path_ancestor(ka, kb) {
            assert(is_key_char(kb[ka.len() as int]));
        }
        if is_path_ancestor(kb, ka) {
            assert(is_key_char(ka[kb.len() as int]));
        }
        assert(pa[0] != pb[0]);
        assert(first_difference(pa, pb, 0) == 0);
    }
    lemma_compile_conditions(provider, config);
}

/// A map of `message` to a single key and `project` to a longer plain path
/// whose first piece starts with another character compiles.
pub proof fn lemma_message_project_map_compiles(
    provider: Seq<char>,
    config: WebhookProviderConfig,
    parts: Seq<Seq<char>>,
)
    requires
        config.fields@.len() == 2,
        config.field_label_key is Some ==> is_valid_key(config.field_label_key->0@),
        config.fields@[0].0@ == "message"@,
        config.fields@[1].0@ == "project"@,
        is_valid_key(config.fields@[0].1@),
        'a' <= config.fields@[0].1@[0] <= 'z',
        config.fields@[0].1@ != "value"@,
        parts.len() > 1,
        forall|k: int|
            0 <= k < parts.len() ==> piece_ok(#[trigger] parts[k], k) && is_valid_key(parts[k]) && step_text(
                step_of(parts[k]),
            ) == parts[k],
        parts[0][0] != config.fields@[0].1@[0],
        config.fields@[1].1@ == join_dots(parts),
    ensures
        compile_outcome(provider, config) is Ok,
{
    reveal_strlit("message");
    reveal_strlit("project");
    let fields = config.fields@;
    let lk = opt_text(config.field_label_key);
    let m = fields[0].1@;
    lemma_letter_key_piece(m, 0);
    lemma_parse_plain_path(seq![m]);
    assert(join_dots(seq![m]) == m);
    assert(seq![m].map_values(|q: Seq<char>| step_of(q)) =~= seq![PathStep::Key(m)]);
    lemma_parse_plain_path(parts);
    let pa = mapped_path(fields, 0);
    let pb = mapped_path(fields, 1);
    assert(pa == seq![PathStep::Key(m)]);
    assert(pb == parts.map_values(|q: Seq<char>| step_of(q)));
    let ca = canonical_text(pa);
    let cb = canonical_text(pb);
    assert(ca == m);
    assert(cb == join_dots(parts));
    assert forall|k: int| 0 <= k < parts.len() implies (#[trigger] parts[k]).len() > 0 by {
        assert(is_valid_key(parts[k]));
    }
    lemma_join_ends(parts);
    assert(cb[0] == parts[0][0]);
    assert(ca != cb);
    if is_path_ancestor(ca, cb) {
        assert(cb.take(ca.len() as int)[0] == cb[0]);
    }
    assert(!is_path_ancestor(ca, cb));
    if is_path_ancestor(cb, ca) {
        assert(ca.take(cb.len() as int)[0] == ca[0]);
    }
    assert(!is_path_ancestor(cb, ca));
    assert(piece_ok(parts[0], 0));
    assert(pb[0] == step_of(parts[0]));
    assert(pb[0] is Key);
    assert(pa[0] != pb[0]);
    assert(first_difference(pa, pb, 0) == 0);
    assert(pa.last() != PathStep::Key("value"@));
    assert(pb.len() == parts.len());
    assert forall|k: int| 0 <= k < fields.len() implies is_event_field(#[trigger] fields[k].0@)
        && parse_output_path(fields[k].1@) is Some by {}
    assert forall|a: int, b: int|
        #![trigger fields[a], fields[b]]
        0 <= a < b < fields.len() implies fields[a].0@ != fields[b].0@ && paths_compatible(
            mapped_path(fields, a),
            mapped_path(fields, b),
            lk,
        ) by {
        assert(a == 0 && b == 1);
        assert(fields[0].0@[0] != fields[1].0@[0]);
        assert(!paths_clash(pa, pb, lk));
    }
    lemma_compile_conditions(provider, config);
}

/// Two output paths that can both be written: their canonical forms differ,
/// neither is a parent of the other, and they do not clash.
pub open spec fn paths_compatible(p: Seq<PathStep>, q: Seq<PathStep>, label_key: Option<Seq<char>>) -> bool {
    &&& canonical_text(p) != canonical_text(q)
    &&& !is_path_ancestor(canonical_text(p), canonical_text(q))
    &&& !is_path_ancestor(canonical_text(q), canonical_text(p))
    &&& !paths_clash(p, q, label_key)
}

/// The conditions under which a provider map compiles, taken together: the
/// map is not empty, a label key is a valid key, every field is an event field
/// named once, every path parses, and every two paths are compatible.
pub open spec fn provider_map_valid(config: WebhookProviderConfig) -> bool {
    let fields = config.fields@;
    let label_key = opt_text(config.field_label_key);
    &&& fields.len() > 0
    &&& (config.field_label_key is Some ==> is_valid_key(config.field_label_key->0@))
    &&& forall|k: int|
        0 <= k < fields.len() ==> is_event_field(#[trigger] fields[k].0@) && parse_output_path(fields[k].1@) is Some
    &&& forall|a: int, b: int|
        #![trigger fields[a], fields[b]]
        0 <= a < b < fields.len() ==> fields[a].0@ != fields[b].0@ && paths_compatible(
            mapped_path(fields, a),
            mapped_path(fields, b),
            label_key,
        )
}

proof fn lemma_path_conflict_iff(existing: Seq<Seq<char>>, c: Seq<char>, k: int)
    requires
        0 <= k,
    ensures
        path_conflict(existing, c, k) is None <==> forall|m: int|
            k <= m < existing.len() ==> #[trigger] existing[m] != c && !is_path_ancestor(existing[m], c)
                && !is_path_ancestor(c, existing[m]),
    decreases existing.len() - k,
{
    if k < existing.len() {
        lemma_path_conflict_iff(existing, c, k + 1);
    }
}

proof fn lemma_mappings_iff(provider: Seq<char>, fields: Seq<(String, String)>, label_key: Option<Seq<char>>, i: int)
    requires
        0 <= i,
    ensures
        first_mapping_issue(provider, fields, label_key, i) is None <==> forall|m: int|
            i <= m < fields.len() ==> #[trigger] mapping_issue(provider, fields, label_key, m) is None,
    decreases fields.len() - i,
{
    if i < fields.len() {
        lemma_mappings_iff(provider, fields, label_key, i + 1);
    }
}

/// A provider map compiles exactly when all of its conditions hold
/// (`provider_map_valid`).
pub proof fn lemma_compile_conditions(provider: Seq<char>, config: WebhookProviderConfig)
    ensures
        compile_outcome(provider, config) is Ok <==> provider_map_valid(config),
{
    let fields = config.fields@;
    let lk = opt_text(config.field_label_key);
    lemma_mappings_iff(provider, fields, lk, 0);
    if compile_outcome(provider, config) is Ok {
        assert forall|k: int| 0 <= k < fields.len() implies is_event_field(#[trigger] fields[k].0@)
            && parse_output_path(fields[k].1@) is Some by {
            assert(mapping_issue(provider, fields, lk, k) is None);
        }
        assert forall|a: int, b: int|
            #![trigger fields[a], fields[b]]
            0 <= a < b < fields.len() implies fields[a].0@ != fields[b].0@ && paths_compatible(
                mapped_path(fields, a),
                mapped_path(fields, b),
                lk,
            ) by {
            assert(mapping_issue(provider, fields, lk, a) is None);
            assert(mapping_issue(provider, fields, lk, b) is None);
            let existing = mapped_canonicals(fields, b);
            lemma_path_conflict_iff(existing, canonical_text(mapped_path(fields, b)), 0);
            assert(existing[a] == canonical_text(mapped_path(fields, a)));
            if paths_clash(mapped_path(fields, a), mapped_path(fields, b), lk) {
                assert(exists|k: int|
                    0 <= k < b && #[trigger] paths_clash(mapped_path(fields, k), mapped_path(fields, b), lk));
            }
            if fields[a].0@ == fields[b].0@ {
                assert(exists|k: int| 0 <= k < b && #[trigger] fields[k].0@ == fields[b].0@);
            }
        }
        assert(provider_map_valid(config));
    }
    if provider_map_valid(config) {
        assert forall|m: int| 0 <= m < fields.len() implies #[trigger] mapping_issue(provider, fields, lk, m)
            is None by {
            assert(is_event_field(fields[m].0@) && parse_output_path(fields[m].1@) is Some);
            let existing = mapped_canonicals(fields, m);
            let c = canonical_text(mapped_path(fields, m));
            assert forall|a: int| 0 <= a < existing.len() implies #[trigger] existing[a] != c
                && !is_path_ancestor(existing[a], c) && !is_path_ancestor(c, existing[a]) by {
                assert(paths_compatible(mapped_path(fields, a), mapped_path(fields, m), lk));
            }
            lemma_path_conflict_iff(existing, c, 0);
            assert forall|k: int| 0 <= k < m implies !#[trigger] paths_clash(
                mapped_path(fields, k),
                mapped_path(fields, m),
                lk,
            ) by {
                assert(paths_compatible(mapped_path(fields, k), mapped_path(fields, m), lk));
            }
            assert forall|k: int| 0 <= k < m implies #[trigger] fields[k].0@ != fields[m].0@ by {
                assert(paths_compatible(mapped_path(fields, k), mapped_path(fields, m), lk));
            }
        }
    }
}

/// A parsed output path can be written: it is non-empty, starts with a key,
/// and every index in it is within bounds.
pub open spec fn writable_path(p: Seq<PathStep>) -> bool {
    &&& p.len() > 0
    &&& p[0] is Key
    &&& forall|j: int| 0 <= j < p.len() ==> index_in_bounds(#[trigger] p[j])
}

/// What a compiled template guarantees of its mappings: each field is an event
/// field, each path can be written, and no two paths are nested or clash.
pub open spec fn template_writable(t: TemplateModel) -> bool {
    &&& forall|k: int| 0 <= k < t.fields.len() ==> is_event_field(#[trigger] t.fields[k].0)
    &&& forall|k: int| 0 <= k < t.fields.len() ==> writable_path(#[trigger] t.fields[k].1)
    &&& forall|a: int, b: int|
        0 <= a < b < t.fields.len() ==> independent_paths(#[trigger] t.fields[a].1, #[trigger] t.fields[b].1)
            && !paths_clash(t.fields[a].1, t.fields[b].1, t.label_key)
}

/// A value at `r` that the first `i` mappings of `t` can leave in a payload
/// begun as an empty object.
pub open spec fn written_by(t: TemplateModel, i: int, r: Seq<PathStep>, v: Json) -> bool {
    ||| v is Null
    ||| (r.len() == 0 && v is Object)
    ||| exists|k: int| 0 <= k < i && #[trigger] left_by_write(t.fields[k].1, r, v, t.label_key)
}

/// Every value in `payload` is one the first `i` mappings of `t` can leave.
pub open spec fn payload_shaped(t: TemplateModel, i: int, payload: Json) -> bool {
    forall|r: Seq<PathStep>|
        (#[trigger] json_at(payload, r)) is Some ==> written_by(t, i, r, json_at(payload, r)->Some_0)
}

proof fn lemma_parsed_path_writable(raw: Seq<char>)
    requires
        parse_output_path(raw) is Some,
    ensures
        writable_path(parse_output_path(raw)->Some_0),
{
    let pieces = split_dots(trimmed(raw));
    lemma_split_on_len(trimmed(raw), '.');
    let s = parse_output_path(raw)->Some_0;
    assert(piece_ok(pieces[0], 0));
    assert forall|j: int| 0 <= j < s.len() implies index_in_bounds(#[trigger] s[j]) by {
        assert(piece_ok(pieces[j], j));
    }
}

proof fn lemma_first_difference(p: Seq<PathStep>, q: Seq<PathStep>, d: int)
    requires
        0 <= d,
    ensures
        d <= first_difference(p, q, d),
        forall|m: int| d <= m < first_difference(p, q, d) ==> p[m] == q[m],
        first_difference(p, q, d) < p.len() && first_difference(p, q, d) < q.len() ==> p[first_difference(
            p,
            q,
            d,
        )] != q[first_difference(p, q, d)],
    decreases p.len() - d,
{
    if d < p.len() && d < q.len() && p[d] == q[d] {
        lemma_first_difference(p, q, d + 1);
    }
}

/// What an earlier write left on the way of a later path, neither nested in
/// it nor clashing with it, is the container the later path's next step needs.
proof fn lemma_step_fits(
    pk: Seq<PathStep>,
    pi: Seq<PathStep>,
    label_key: Option<Seq<char>>,
    j: int,
    v: Json,
)
    requires
        independent_paths(pk, pi),
        !paths_clash(pk, pi, label_key),
        1 <= j < pi.len(),
        left_by_write(pk, pi.take(j), v, label_key),
    ensures
        fits_step(v, pi[j]),
{
    let r = pi.take(j);
    if r.len() < pk.len() && pk.take(j) == r && fits_step(v, pk[j]) {
        if pk[j] != pi[j] {
            lemma_first_difference(pk, pi, 0);
            let f = first_difference(pk, pi, 0);
            if f > j {
                assert(pk[j] == pi[j]);
            }
            if f < j {
                assert(pk[f] == pk.take(j)[f]);
                assert(pi[f] == r[f]);
            }
            assert(f == j);
        }
    } else if r == pk {
        assert(is_step_prefix(pk, pi));
    } else {
        assert(label_slot(pk, r, label_key));
        let n = pk.len() - 1;
        assert(pi.take(n) =~= r.take(n));
        assert(pi[n] == r.last());
        assert(under_label(pk, pi, label_key));
    }
}

proof fn lemma_render_from_ok(t: TemplateModel, e: VentEvent, i: int, payload: Json)
    requires
        template_writable(t),
        0 <= i <= t.fields.len(),
        payload_shaped(t, i, payload),
    ensures
        render_from(t, e, i, payload) is Ok,
    decreases t.fields.len() - i,
{
    if i < t.fields.len() {
        let field = t.fields[i].0;
        let path = t.fields[i].1;
        let lk = t.label_key;
        assert(is_event_field(field));
        assert(writable_path(path));
        let v = event_field_text(e, field)->0;
        let label = field_label(field);
        assert(json_at(payload, Seq::<PathStep>::empty()) == Some(payload));
        if !(payload is Null) && !(payload is Object) {
            assert(written_by(t, i, Seq::<PathStep>::empty(), payload));
            let k = choose|k: int|
                0 <= k < i && #[trigger] left_by_write(t.fields[k].1, Seq::<PathStep>::empty(), payload, lk);
            assert(writable_path(t.fields[k].1));
        }
        assert forall|j: int|
            1 <= j < path.len() && (#[trigger] json_at(payload, path.take(j))) is Some implies (json_at(
                payload,
                path.take(j),
            )->Some_0 is Null || fits_step(json_at(payload, path.take(j))->Some_0, path[j])) by {
            let w = json_at(payload, path.take(j))->Some_0;
            assert(written_by(t, i, path.take(j), w));
            if !(w is Null) {
                let k = choose|k: int| 0 <= k < i && #[trigger] left_by_write(t.fields[k].1, path.take(j), w, lk);
                assert(independent_paths(t.fields[k].1, t.fields[i].1));
                lemma_step_fits(t.fields[k].1, path, lk, j, w);
            }
        }
        lemma_insert_ok(payload, path, Json::Str(v), lk, label);
        let next = insert_at(payload, path, Json::Str(v), lk, label)->Ok_0;
        assert forall|r: Seq<PathStep>| (#[trigger] json_at(next, r)) is Some implies written_by(
            t,
            i + 1,
            r,
            json_at(next, r)->Some_0,
        ) by {
            lemma_insert_leaves(payload, path, Json::Str(v), lk, label, r);
            let w = json_at(next, r)->Some_0;
            if json_at(payload, r) == Some(w) {
                assert(written_by(t, i, r, w));
                if !(w is Null) && !(r.len() == 0 && w is Object) {
                    let k = choose|k: int| 0 <= k < i && #[trigger] left_by_write(t.fields[k].1, r, w, lk);
                    assert(left_by_write(t.fields[k].1, r, w, lk));
                }
            } else if !(w is Null) {
                assert(left_by_write(t.fields[i].1, r, w, lk));
            }
        }
        assert(render_from(t, e, i, payload) == render_from(t, e, i + 1, next));
        lemma_render_from_ok(t, e, i + 1, next);
    }
}

/// A compiled template has the guarantees `template_writable` names.
proof fn lemma_compiled_template_writable(provider: Seq<char>, config: WebhookProviderConfig)
    requires
        compile_outcome(provider, config) is Ok,
    ensures
        template_writable(compile_outcome(provider, config)->Ok_0),
{
    let fields = config.fields@;
    let t = compile_outcome(provider, config)->Ok_0;
    let lk = opt_text(config.field_label_key);
    lemma_no_mapping_issue(provider, fields, lk, 0);
    lemma_compiled_paths_independent(provider, config);
    assert forall|k: int| 0 <= k < t.fields.len() implies is_event_field(#[trigger] t.fields[k].0) by {
        assert(mapping_issue(provider, fields, lk, k) is None);
    }
    assert forall|k: int| 0 <= k < t.fields.len() implies writable_path(#[trigger] t.fields[k].1) by {
        assert(mapping_issue(provider, fields, lk, k) is None);
        lemma_parsed_path_writable(fields[k].1@);
    }
    assert forall|a: int, b: int| 0 <= a < b < t.fields.len() implies independent_paths(
        #[trigger] t.fields[a].1,
        #[trigger] t.fields[b].1,
    ) && !paths_clash(t.fields[a].1, t.fields[b].1, t.label_key) by {
        assert(independent_paths(t.fields[a].1, t.fields[b].1));
        assert(t.fields[a].1 == mapped_path(fields, a));
        assert(t.fields[b].1 == mapped_path(fields, b));
        assert(mapping_issue(provider, fields, lk, b) is None);
        assert(mapping_issue(provider, fields, lk, a) is None);
        if paths_clash(mapped_path(fields, a), mapped_path(fields, b), lk) {
            assert(exists|k: int|
                0 <= k < b && #[trigger] paths_clash(mapped_path(fields, k), mapped_path(fields, b), lk));
        }
    }
}

/// A provider map that compiles renders every event: its mappings, written in
/// map order, never collide, and each mapped event field's value is found at
/// its output path.
pub proof fn lemma_compiled_provider_renders_every_field(
    provider: Seq<char>,
    config: WebhookProviderConfig,
    e: VentEvent,
)
    requires
        compile_outcome(provider, config) is Ok,
    ensures
        rendered(compile_outcome(provider, config)->Ok_0, e) is Ok,
        forall|k: int|
            0 <= k < compile_outcome(provider, config)->Ok_0.fields.len() ==> json_at(
                rendered(compile_outcome(provider, config)->Ok_0, e)->Ok_0,
                #[trigger] compile_outcome(provider, config)->Ok_0.fields[k].1,
            ) == Some(
                Json::Str(event_field_text(e, compile_outcome(provider, config)->Ok_0.fields[k].0)->0),
            ),
{
    let t = compile_outcome(provider, config)->Ok_0;
    let start = Json::Object(Seq::empty());
    lemma_compiled_template_writable(provider, config);
    lemma_compiled_paths_independent(provider, config);
    assert forall|r: Seq<PathStep>| (#[trigger] json_at(start, r)) is Some implies written_by(
        t,
        0,
        r,
        json_at(start, r)->Some_0,
    ) by {
        if r.len() > 0 {
            match r[0] {
                PathStep::Index(_) => {},
                PathStep::Key(k) => {
                    assert(crate::json::key_index(Seq::<(Seq<char>, Json)>::empty(), k, 0) is None);
                },
            }
        }
    }
    lemma_render_from_ok(t, e, 0, start);
    lemma_render_from_keeps(t, e, 0, start);
}


/// With no provider, or the provider `raw` (after trimming), the webhook body
/// holds every event field under its own name, with the event's own text.
pub proof fn lemma_raw_body_keeps_event_fields(rc: RuntimeConfig, sink: WebhookSinkConfig, e: VentEvent)
    requires
        sink.provider is None || trimmed(sink.provider->0@) == "raw"@,
    ensures
        webhook_body(rc, sink, e) is Ok,
        json_at(webhook_body(rc, sink, e)->Ok_0, seq![PathStep::Key("id"@)]) == Some(Json::Str(e.id@)),
        json_at(webhook_body(rc, sink, e)->Ok_0, seq![PathStep::Key("timestamp"@)]) == Some(
            Json::Str(e.timestamp@),
        ),
        json_at(webhook_body(rc, sink, e)->Ok_0, seq![PathStep::Key("channel"@)]) == Some(
            Json::Str(e.channel@),
        ),
        json_at(webhook_body(rc, sink, e)->Ok_0, seq![PathStep::Key("message"@)]) == Some(
            Json::Str(e.message@),
        ),
        json_at(webhook_body(rc, sink, e)->Ok_0, seq![PathStep::Key("project"@)]) == Some(
            Json::Str(e.project@),
        ),
{
    reveal_strlit("id");
    reveal_strlit("timestamp");
    reveal_strlit("channel");
    reveal_strlit("message");
    reveal_strlit("project");
    reveal_with_fuel(crate::json::key_index, 6);
    reveal_with_fuel(json_at, 2);
    assert(webhook_body(rc, sink, e) == Ok::<Json, Seq<char>>(event_json(e)));
    let body = event_json(e);
    let keys = seq!["id"@, "timestamp"@, "channel"@, "message"@, "project"@];
    assert("id"@[0] != "timestamp"@[0]);
    assert("channel"@[0] != "message"@[0] && "channel"@[0] != "project"@[0] && "message"@[0] != "project"@[0]);
    assert("id"@ != "channel"@ && "id"@ != "message"@ && "id"@ != "project"@);
    assert("timestamp"@ != "channel"@ && "timestamp"@ != "message"@ && "timestamp"@ != "project"@);
    assert(seq![PathStep::Key("id"@)].drop_first().len() == 0);
    assert(seq![PathStep::Key("timestamp"@)].drop_first().len() == 0);
    assert(seq![PathStep::Key("channel"@)].drop_first().len() == 0);
    assert(seq![PathStep::Key("message"@)].drop_first().len() == 0);
    assert(seq![PathStep::Key("project"@)].drop_first().len() == 0);
}
} // verus!
