//! Validation of routes against per-type metadata, and a registry of migration rules.
use vstd::prelude::*;
use crate::route_entry::SerializableRoute;
use crate::route_registry::RouteRegistry;
use crate::text::{str_eq, owned, starts_with_char, contains_str, contains_seq, strings_view};

verus! {

/// The kinds of validation error.
#[derive(Debug, Clone, Copy, PartialEq, Eq, Structural)]
pub enum ValidationErrorKind {
    UnknownRouteType,
    InvalidPath,
    MissingField,
    InvalidContentType,
    ExtraDataValidationError,
    VersionIncompatible,
}

/// Why a route failed validation.
#[derive(Debug)]
pub enum ValidationError {
    UnknownRouteType(String),
    InvalidPath(String),
    MissingField(String),
    InvalidContentType(String),
    ExtraDataValidationError(String),
    VersionIncompatible { expected: String, actual: String },
}

impl View for ValidationError {
    /// The error's kind and its text (the expected and actual versions for
    /// `VersionIncompatible`; otherwise the detail and an empty sequence).
    type V = (ValidationErrorKind, Seq<char>, Seq<char>);

    open spec fn view(&self) -> (ValidationErrorKind, Seq<char>, Seq<char>) {
        match self {
            ValidationError::UnknownRouteType(s) => (ValidationErrorKind::UnknownRouteType, s@, Seq::empty()),
            ValidationError::InvalidPath(s) => (ValidationErrorKind::InvalidPath, s@, Seq::empty()),
            ValidationError::MissingField(s) => (ValidationErrorKind::MissingField, s@, Seq::empty()),
            ValidationError::InvalidContentType(s) => (ValidationErrorKind::InvalidContentType, s@, Seq::empty()),
            ValidationError::ExtraDataValidationError(s) => (ValidationErrorKind::ExtraDataValidationError, s@, Seq::empty()),
            ValidationError::VersionIncompatible { expected, actual } => (ValidationErrorKind::VersionIncompatible, expected@, actual@),
        }
    }
}

impl ValidationError {
    /// The error's message.
    pub fn to_message(&self) -> (r: String)
        ensures
            r@ == match self {
                ValidationError::UnknownRouteType(s) => "Unknown route type: "@ + s@,
                ValidationError::InvalidPath(s) => "Invalid route path: "@ + s@,
                ValidationError::MissingField(s) => "Missing required field: "@ + s@,
                ValidationError::InvalidContentType(s) => "Invalid content type: "@ + s@,
                ValidationError::ExtraDataValidationError(s) => "Extra data validation failed: "@ + s@,
                ValidationError::VersionIncompatible { expected, actual } =>
                    "Route version incompatible: expected "@ + expected@ + ", got "@ + actual@,
            },
    {
        match self {
            ValidationError::UnknownRouteType(s) => String::from_str("Unknown route type: ").concat(s.as_str()),
            ValidationError::InvalidPath(s) => String::from_str("Invalid route path: ").concat(s.as_str()),
            ValidationError::MissingField(s) => String::from_str("Missing required field: ").concat(s.as_str()),
            ValidationError::InvalidContentType(s) => String::from_str("Invalid content type: ").concat(s.as_str()),
            ValidationError::ExtraDataValidationError(s) => {
                String::from_str("Extra data validation failed: ").concat(s.as_str())
            },
            ValidationError::VersionIncompatible { expected, actual } => {
                String::from_str("Route version incompatible: expected ").concat(expected.as_str())
                    .concat(", got ").concat(actual.as_str())
            },
        }
    }
}

/// What a route type declares about itself.
#[derive(Debug, Clone)]
pub struct RouteTypeMetadata {
    pub route_type: String,
    pub version: String,
    pub description: String,
    pub required_fields: Vec<String>,
    pub optional_fields: Vec<String>,
    pub supported_content_types: Vec<String>,
    pub requires_extra_data: bool,
}

/// A rule that moves a route type from one version to another.
#[derive(Debug, Clone)]
pub struct MigrationRule {
    pub from_version: String,
    pub to_version: String,
    pub description: String,
    pub transformation: String,
}

/// The position of the metadata named `name` in `m`, if any.
pub open spec fn meta_index(m: Seq<RouteTypeMetadata>, name: Seq<char>) -> Option<int> {
    if exists|i: int| 0 <= i < m.len() && m[i].route_type@ == name {
        Some(choose|i: int| 0 <= i < m.len() && m[i].route_type@ == name)
    } else {
        None
    }
}

/// The position of the migration list of `name` in `m`, if any.
pub open spec fn migration_index(m: Seq<(String, Vec<MigrationRule>)>, name: Seq<char>) -> Option<int> {
    if exists|i: int| 0 <= i < m.len() && m[i].0@ == name {
        Some(choose|i: int| 0 <= i < m.len() && m[i].0@ == name)
    } else {
        None
    }
}

/// Metadata and migration rules of route types, each type name once.
pub struct RouteTypeRegistry {
    metadata: Vec<RouteTypeMetadata>,
    migrations: Vec<(String, Vec<MigrationRule>)>,
}

impl RouteTypeRegistry {
    #[verifier::type_invariant]
    spec fn inv(self) -> bool {
        &&& forall|i: int, j: int| 0 <= i < self.metadata@.len() && 0 <= j < self.metadata@.len() && i != j
            ==> self.metadata@[i].route_type@ != self.metadata@[j].route_type@
        &&& forall|i: int, j: int| 0 <= i < self.migrations@.len() && 0 <= j < self.migrations@.len() && i != j
            ==> self.migrations@[i].0@ != self.migrations@[j].0@
    }

    /// Whether metadata is registered for `name`.
    pub closed spec fn has_metadata(&self, name: Seq<char>) -> bool {
        meta_index(self.metadata@, name) is Some
    }

    /// The metadata registered for `name` (meaningful when `has_metadata(name)`).
    pub closed spec fn metadata_of(&self, name: Seq<char>) -> RouteTypeMetadata {
        self.metadata@[meta_index(self.metadata@, name)->0]
    }

    /// The migration rules registered for `name`, in registration order.
    pub closed spec fn migrations_of(&self, name: Seq<char>) -> Seq<MigrationRule> {
        match migration_index(self.migrations@, name) {
            Some(i) => self.migrations@[i].1@,
            None => Seq::empty(),
        }
    }

    /// A registry with nothing registered.
    pub fn new() -> (r: Self)
        ensures
            forall|n: Seq<char>| !(#[trigger] r.has_metadata(n)),
            forall|n: Seq<char>| #[trigger] r.migrations_of(n) == Seq::<MigrationRule>::empty(),
    {
        RouteTypeRegistry { metadata: Vec::new(), migrations: Vec::new() }
    }

    fn find_metadata(&self, name: &str) -> (r: Option<usize>)
        ensures
            match r {
                Some(i) => i < self.metadata@.len() && self.metadata@[i as int].route_type@ == name@,
                None => !self.has_metadata(name@),
            },
    {
        let mut i: usize = 0;
        while i < self.metadata.len()
            invariant
                i <= self.metadata@.len(),
                forall|j: int| 0 <= j < i ==> self.metadata@[j].route_type@ != name@,
            decreases self.metadata@.len() - i,
        {
            if str_eq(self.metadata[i].route_type.as_str(), name) {
                return Some(i);
            }
            i = i + 1;
        }
        None
    }

    fn find_migrations(&self, name: &str) -> (r: Option<usize>)
        ensures
            match r {
                Some(i) => i < self.migrations@.len() && self.migrations@[i as int].0@ == name@,
                None => migration_index(self.migrations@, name@) is None,
            },
    {
        let mut i: usize = 0;
        while i < self.migrations.len()
            invariant
                i <= self.migrations@.len(),
                forall|j: int| 0 <= j < i ==> self.migrations@[j].0@ != name@,
            decreases self.migrations@.len() - i,
        {
            if str_eq(self.migrations[i].0.as_str(), name) {
                return Some(i);
            }
            i = i + 1;
        }
        None
    }

    /// Registers `metadata` under its type name, replacing earlier metadata of that name.
    /// The type name and the list of required fields must not be empty.
    pub fn register_metadata(&mut self, metadata: RouteTypeMetadata) -> (r: Result<(), ValidationError>)
        ensures
            metadata.route_type@.len() == 0 ==> (r matches Err(e) && e@ == (ValidationErrorKind::MissingField, "type_name"@, Seq::<char>::empty())),
            metadata.route_type@.len() > 0 && metadata.required_fields@.len() == 0
                ==> (r matches Err(e) && e@ == (ValidationErrorKind::MissingField, "required_fields"@, Seq::<char>::empty())),
            r is Err ==> forall|n: Seq<char>| #[trigger] final(self).has_metadata(n) == old(self).has_metadata(n)
                && (old(self).has_metadata(n) ==> final(self).metadata_of(n) == old(self).metadata_of(n)),
            metadata.route_type@.len() > 0 && metadata.required_fields@.len() > 0 ==> r is Ok,
            r is Ok ==> final(self).has_metadata(metadata.route_type@)
                && final(self).metadata_of(metadata.route_type@) == metadata,
            r is Ok ==> forall|n: Seq<char>| n != metadata.route_type@ ==>
                #[trigger] final(self).has_metadata(n) == old(self).has_metadata(n)
                && (old(self).has_metadata(n) ==> final(self).metadata_of(n) == old(self).metadata_of(n)),
            forall|n: Seq<char>| #[trigger] final(self).migrations_of(n) == old(self).migrations_of(n),
    {
        proof { use_type_invariant(&*self); }
        if metadata.route_type.unicode_len() == 0 {
            let e = ValidationError::MissingField(String::from_str("type_name"));
            proof { reveal_strlit("type_name"); }
            return Err(e);
        }
        if metadata.required_fields.len() == 0 {
            let e = ValidationError::MissingField(String::from_str("required_fields"));
            proof { reveal_strlit("required_fields"); }
            return Err(e);
        }
        let ghost before = self.metadata@;
        let ghost name = metadata.route_type@;
        let found = self.find_metadata(metadata.route_type.as_str());
        let mut list: Vec<RouteTypeMetadata> = Vec::new();
        std::mem::swap(&mut list, &mut self.metadata);
        match found {
            Some(i) => {
                list.set(i, metadata);
                proof {
                    assert forall|a: int, b: int| 0 <= a < list@.len() && 0 <= b < list@.len() && a != b
                        implies list@[a].route_type@ != list@[b].route_type@ by {
                        if a != i && b != i {
                            assert(list@[a] == before[a] && list@[b] == before[b]);
                        } else if a == i {
                            assert(list@[b] == before[b]);
                        } else {
                            assert(list@[a] == before[a]);
                        }
                    }
                }
                self.metadata = list;
                proof {
                    let k = meta_index(self.metadata@, name)->0;
                    assert(self.metadata@[i as int].route_type@ == name);
                    assert(k == i);
                    assert forall|n: Seq<char>| n != name implies
                        #[trigger] self.has_metadata(n) == meta_index(before, n) is Some
                        && (meta_index(before, n) is Some ==> self.metadata_of(n) == before[meta_index(before, n)->0]) by {
                        if meta_index(before, n) is Some {
                            let k = meta_index(before, n)->0;
                            assert(self.metadata@[k] == before[k]);
                            assert(meta_index(self.metadata@, n) == Some(k));
                        }
                        if meta_index(self.metadata@, n) is Some {
                            let k = meta_index(self.metadata@, n)->0;
                            assert(self.metadata@[k] == before[k]);
                        }
                    }
                }
            },
            None => {
                list.push(metadata);
                proof {
                    assert forall|a: int, b: int| 0 <= a < list@.len() && 0 <= b < list@.len() && a != b
                        implies list@[a].route_type@ != list@[b].route_type@ by {
                        if a < before.len() && b < before.len() {
                            assert(list@[a] == before[a] && list@[b] == before[b]);
                        } else if a < before.len() {
                            assert(list@[a] == before[a]);
                            assert(!(0 <= a < before.len() && before[a].route_type@ == name));
                        } else {
                            assert(list@[b] == before[b]);
                            assert(!(0 <= b < before.len() && before[b].route_type@ == name));
                        }
                    }
                }
                self.metadata = list;
                proof {
                    let last = before.len() as int;
                    assert(self.metadata@[last].route_type@ == name);
                    assert(meta_index(self.metadata@, name) is Some);
                    assert(meta_index(self.metadata@, name) == Some(last));
                    assert forall|n: Seq<char>| n != name implies
                        #[trigger] self.has_metadata(n) == meta_index(before, n) is Some
                        && (meta_index(before, n) is Some ==> self.metadata_of(n) == before[meta_index(before, n)->0]) by {
                        if meta_index(before, n) is Some {
                            let k = meta_index(before, n)->0;
                            assert(self.metadata@[k] == before[k]);
                            assert(meta_index(self.metadata@, n) == Some(k));
                        }
                        if meta_index(self.metadata@, n) is Some {
                            let k = meta_index(self.metadata@, n)->0;
                            if k < before.len() {
                                assert(self.metadata@[k] == before[k]);
                            }
                        }
                    }
                }
            },
        }
        Ok(())
    }

    /// The metadata registered for `route_type`.
    pub fn get_metadata(&self, route_type: &str) -> (r: Option<&RouteTypeMetadata>)
        ensures
            match r {
                Some(m) => self.has_metadata(route_type@) && *m == self.metadata_of(route_type@),
                None => !self.has_metadata(route_type@),
            },
    {
        proof { use_type_invariant(self); }
        match self.find_metadata(route_type) {
            Some(i) => {
                proof {
                    let k = meta_index(self.metadata@, route_type@)->0;
                    assert(self.metadata@[k].route_type@ == route_type@);
                }
                Some(&self.metadata[i])
            },
            None => None,
        }
    }

    /// Appends `rule` to the migration rules of `route_type`.
    pub fn register_migration(&mut self, route_type: &str, rule: MigrationRule)
        ensures
            final(self).migrations_of(route_type@) == old(self).migrations_of(route_type@).push(rule),
            forall|n: Seq<char>| n != route_type@ ==> #[trigger] final(self).migrations_of(n) == old(self).migrations_of(n),
            forall|n: Seq<char>| #[trigger] final(self).has_metadata(n) == old(self).has_metadata(n)
                && (old(self).has_metadata(n) ==> final(self).metadata_of(n) == old(self).metadata_of(n)),
    {
        proof { use_type_invariant(&*self); }
        let ghost before = self.migrations@;
        let ghost name = route_type@;
        let found = self.find_migrations(route_type);
        let mut list: Vec<(String, Vec<MigrationRule>)> = Vec::new();
        std::mem::swap(&mut list, &mut self.migrations);
        match found {
            Some(i) => {
                proof {
                    let k = migration_index(before, name)->0;
                    assert(before[k].0@ == name);
                    assert(k == i);
                }
                let mut entry = list.remove(i);
                entry.1.push(rule);
                list.insert(i, entry);
                proof {
                    assert forall|j: int| 0 <= j < list@.len() && j != i implies #[trigger] list@[j] == before[j] by {
                        assert(list@[j] == before[j]);
                    }
                    assert forall|a: int, b: int| 0 <= a < list@.len() && 0 <= b < list@.len() && a != b
                        implies list@[a].0@ != list@[b].0@ by {
                        assert(list@[a].0@ == before[a].0@);
                        assert(list@[b].0@ == before[b].0@);
                    }
                }
                self.migrations = list;
                proof {
                    assert(self.migrations@[i as int].0@ == name);
                    let k = migration_index(self.migrations@, name)->0;
                    assert(k == i);
                    assert forall|n: Seq<char>| n != name implies
                        #[trigger] self.migrations_of(n) == (match migration_index(before, n) {
                            Some(k) => before[k].1@,
                            None => Seq::<MigrationRule>::empty(),
                        }) by {
                        if migration_index(before, n) is Some {
                            let k = migration_index(before, n)->0;
                            assert(self.migrations@[k] == before[k]);
                            assert(migration_index(self.migrations@, n) == Some(k));
                        }
                        if migration_index(self.migrations@, n) is Some {
                            let k = migration_index(self.migrations@, n)->0;
                            assert(self.migrations@[k] == before[k]);
                        }
                    }
                }
            },
            None => {
                let mut rules: Vec<MigrationRule> = Vec::new();
                rules.push(rule);
                list.push((owned(route_type), rules));
                proof {
                    assert forall|a: int, b: int| 0 <= a < list@.len() && 0 <= b < list@.len() && a != b
                        implies list@[a].0@ != list@[b].0@ by {
                        if a < before.len() && b < before.len() {
                            assert(list@[a] == before[a] && list@[b] == before[b]);
                        } else if a < before.len() {
                            assert(list@[a] == before[a]);
                            assert(!(0 <= a < before.len() && before[a].0@ == name));
                        } else {
                            assert(list@[b] == before[b]);
                            assert(!(0 <= b < before.len() && before[b].0@ == name));
                        }
                    }
                }
                self.migrations = list;
                proof {
                    let last = before.len() as int;
                    assert(self.migrations@[last].0@ == name);
                    assert(migration_index(self.migrations@, name) == Some(last));
                    assert(self.migrations@[last].1@ =~= seq![rule]);
                    assert(Seq::<MigrationRule>::empty().push(rule) =~= seq![rule]);
                    assert forall|n: Seq<char>| n != name implies
                        #[trigger] self.migrations_of(n) == (match migration_index(before, n) {
                            Some(k) => before[k].1@,
                            None => Seq::<MigrationRule>::empty(),
                        }) by {
                        if migration_index(before, n) is Some {
                            let k = migration_index(before, n)->0;
                            assert(self.migrations@[k] == before[k]);
                            assert(migration_index(self.migrations@, n) == Some(k));
                        }
                        if migration_index(self.migrations@, n) is Some {
                            let k = migration_index(self.migrations@, n)->0;
                            if k < before.len() {
                                assert(self.migrations@[k] == before[k]);
                            }
                        }
                    }
                }
            },
        }
    }

    /// The migration rules of `route_type` (none if it has none).
    pub fn get_migrations(&self, route_type: &str) -> (r: &[MigrationRule])
        ensures
            r@ == self.migrations_of(route_type@),
    {
        proof { use_type_invariant(self); }
        match self.find_migrations(route_type) {
            Some(i) => {
                proof {
                    let k = migration_index(self.migrations@, route_type@)->0;
                    assert(self.migrations@[k].0@ == route_type@);
                }
                self.migrations[i].1.as_slice()
            },
            None => {
                let r: &[MigrationRule] = &[];
                assert(r@ =~= Seq::<MigrationRule>::empty());
                r
            },
        }
    }

    /// Whether metadata is registered for `route_type`.
    pub fn is_type_registered(&self, route_type: &str) -> (r: bool)
        ensures
            r == self.has_metadata(route_type@),
    {
        self.find_metadata(route_type).is_some()
    }
}

/// The reason a path is rejected, if it is: it is empty, does not start with `/`, or
/// contains `..`.
pub open spec fn path_fault(p: Seq<char>) -> Option<Seq<char>> {
    if p.len() == 0 {
        Some("Path cannot be empty"@)
    } else if p[0] != '/' {
        Some("Path must start with '/'"@)
    } else if contains_seq(p, ".."@) {
        Some("Path cannot contain '..'"@)
    } else {
        None
    }
}

/// What `{:?}` makes of a list of strings.
pub uninterp spec fn debug_list_text(v: Seq<Seq<char>>) -> Seq<char>;

/// Formats `v` with `{:?}` (std's `Debug` for `Vec<String>`). Trusted: the text is
/// `debug_list_text` of the strings; what that text is (quoting and escaping) is left to std.
#[verifier::external_body]
fn debug_list(v: &Vec<String>) -> (r: String)
    ensures
        r@ == debug_list_text(strings_view(v@)),
{
    format!("{:?}", v)
}

/// The reason a content type is rejected, if it is: a non-empty list of supported types
/// that does not hold it.
pub open spec fn content_fault(content_type: Seq<char>, supported: Seq<Seq<char>>) -> Option<Seq<char>> {
    if supported.len() == 0 || supported.contains(content_type) {
        None
    } else {
        Some("Content type '"@ + content_type + "' is not supported. Supported types: "@ + debug_list_text(supported))
    }
}

/// A content type is refused exactly when the list of supported types is non-empty and no
/// element of it is that type: any element of the list is accepted, wherever it stands.
pub proof fn lemma_content_fault(content_type: Seq<char>, supported: Seq<Seq<char>>)
    ensures
        (exists|j: int| 0 <= j < supported.len() && #[trigger] supported[j] == content_type)
            ==> content_fault(content_type, supported) is None,
        supported.len() > 0 && (forall|j: int| 0 <= j < supported.len() ==> #[trigger] supported[j] != content_type)
            ==> content_fault(content_type, supported) is Some,
        supported.len() == 0 ==> content_fault(content_type, supported) is None,
{
    if exists|j: int| 0 <= j < supported.len() && #[trigger] supported[j] == content_type {
        let j = choose|j: int| 0 <= j < supported.len() && #[trigger] supported[j] == content_type;
        assert(supported.contains(content_type));
    }
}

/// What parsing `s` as a JSON value with `serde_json` reports: `None` when it parses, else
/// the error's text.
pub uninterp spec fn json_value_error(s: Seq<char>) -> Option<Seq<char>>;

/// Parses `data` as a `serde_json::Value` and gives the error's text if that fails.
/// Trusted: the outcome is `json_value_error(data@)`; which texts parse is serde_json's.
#[verifier::external_body]
fn json_error(data: &str) -> (r: Option<String>)
    ensures
        match r {
            Some(m) => json_value_error(data@) == Some(m@),
            None => json_value_error(data@) is None,
        },
{
    match serde_json::from_str::<serde_json::Value>(data) {
        Ok(_) => None,
        Err(e) => Some(e.to_string()),
    }
}

/// The reason extra data is rejected, if it is: it is missing where the type requires it,
/// or it is present and not JSON.
pub open spec fn extra_fault(extra: Option<Seq<char>>, required: bool) -> Option<Seq<char>> {
    if required && extra is None {
        Some("This route type requires extra_data"@)
    } else {
        match extra {
            Some(d) => match json_value_error(d) {
                Some(e) => Some("Invalid JSON: "@ + e),
                None => None,
            },
            None => None,
        }
    }
}

/// The outcome of the JSON check of extra data, given what the parser reported.
pub fn json_check_outcome(parse_error: Option<String>) -> (r: Result<(), ValidationError>)
    ensures
        match parse_error {
            Some(m) => r matches Err(e) && e@ == (ValidationErrorKind::ExtraDataValidationError, "Invalid JSON: "@ + m@, Seq::<char>::empty()),
            None => r is Ok,
        },
{
    match parse_error {
        Some(m) => Err(ValidationError::ExtraDataValidationError(String::from_str("Invalid JSON: ").concat(m.as_str()))),
        None => Ok(()),
    }
}

/// The text of an optional string.
pub open spec fn opt_view(o: Option<String>) -> Option<Seq<char>> {
    match o {
        Some(s) => Some(s@),
        None => None,
    }
}

/// The migration rules among the first `n` of `rules` that start from version `from`.
pub open spec fn rules_from(rules: Seq<MigrationRule>, from: Seq<char>, n: int) -> Seq<MigrationRule>
    decreases n,
{
    if n <= 0 {
        Seq::empty()
    } else if rules[n - 1].from_version@ == from {
        rules_from(rules, from, n - 1).push(rules[n - 1])
    } else {
        rules_from(rules, from, n - 1)
    }
}

/// Checks routes against the metadata of their types.
pub struct RouteValidator {
    metadata_registry: RouteTypeRegistry,
}

impl RouteValidator {
    /// The validator's registry of type metadata and migrations.
    pub closed spec fn types(&self) -> RouteTypeRegistry {
        self.metadata_registry
    }

    /// Why `route` at `path` fails validation, if it does, with `registered` telling whether
    /// its type is known to the route registry: a bad path first, then an unknown type, then
    /// an unsupported content type, then bad extra data.
    pub open spec fn route_fault(&self, path: Seq<char>, route: SerializableRoute, registered: bool)
        -> Option<(ValidationErrorKind, Seq<char>, Seq<char>)>
    {
        match path_fault(path) {
            Some(m) => Some((ValidationErrorKind::InvalidPath, m, Seq::empty())),
            None => if !registered || !self.types().has_metadata(route.route_type@) {
                Some((ValidationErrorKind::UnknownRouteType, route.route_type@, Seq::empty()))
            } else {
                let md = self.types().metadata_of(route.route_type@);
                match content_fault(route.content_type@, strings_view(md.supported_content_types@)) {
                    Some(m) => Some((ValidationErrorKind::InvalidContentType, m, Seq::empty())),
                    None => match extra_fault(opt_view(route.extra_data), md.requires_extra_data) {
                        Some(m) => Some((ValidationErrorKind::ExtraDataValidationError, m, Seq::empty())),
                        None => None,
                    },
                }
            },
        }
    }

    /// The faults of the first `n` routes of `routes`, in order, skipping valid routes.
    pub open spec fn route_faults<F>(&self, routes: Seq<(String, SerializableRoute)>, registry: RouteRegistry<F>, n: int)
        -> Seq<(ValidationErrorKind, Seq<char>, Seq<char>)>
        decreases n,
    {
        if n <= 0 {
            Seq::empty()
        } else {
            let prev = self.route_faults(routes, registry, n - 1);
            match self.route_fault(routes[n - 1].0@, routes[n - 1].1, registry.has(routes[n - 1].1.route_type@)) {
                Some(f) => prev.push(f),
                None => prev,
            }
        }
    }

    /// How many of the first `n` routes of `routes` are invalid.
    pub open spec fn failing_count<F>(&self, routes: Seq<(String, SerializableRoute)>, registry: RouteRegistry<F>, n: int) -> nat
        decreases n,
    {
        if n <= 0 {
            0
        } else {
            self.failing_count(routes, registry, n - 1)
                + if self.route_fault(routes[n - 1].0@, routes[n - 1].1, registry.has(routes[n - 1].1.route_type@)) is Some { 1nat } else { 0nat }
        }
    }

    /// Validating a list gives one fault per invalid route.
    pub proof fn lemma_one_fault_per_failing_route<F>(&self, routes: Seq<(String, SerializableRoute)>, registry: RouteRegistry<F>, n: int)
        ensures
            self.route_faults(routes, registry, n).len() == self.failing_count(routes, registry, n),
        decreases n,
    {
        if n > 0 {
            self.lemma_one_fault_per_failing_route(routes, registry, n - 1);
        }
    }

    /// A validator with no type metadata.
    pub fn new() -> (r: Self)
        ensures
            forall|n: Seq<char>| !(#[trigger] r.types().has_metadata(n)),
            forall|n: Seq<char>| #[trigger] r.types().migrations_of(n) == Seq::<MigrationRule>::empty(),
    {
        RouteValidator { metadata_registry: RouteTypeRegistry::new() }
    }

    /// A validator that knows the simple route type: version 1.0.0, fields `route_type`,
    /// `body` and `content_type` (and optionally `extra_data`), text, HTML, JSON and XML
    /// content, no extra data required.
    pub fn with_defaults() -> (r: Self)
        ensures
            r.types().has_metadata("SimpleRoute"@),
            forall|n: Seq<char>| n != "SimpleRoute"@ ==> !(#[trigger] r.types().has_metadata(n)),
            r.types().metadata_of("SimpleRoute"@).route_type@ == "SimpleRoute"@,
            r.types().metadata_of("SimpleRoute"@).version@ == "1.0.0"@,
            strings_view(r.types().metadata_of("SimpleRoute"@).required_fields@)
                == seq!["route_type"@, "body"@, "content_type"@],
            strings_view(r.types().metadata_of("SimpleRoute"@).optional_fields@) == seq!["extra_data"@],
            strings_view(r.types().metadata_of("SimpleRoute"@).supported_content_types@)
                == seq!["text/plain"@, "text/html"@, "application/json"@, "application/xml"@],
            !r.types().metadata_of("SimpleRoute"@).requires_extra_data,
            forall|n: Seq<char>| #[trigger] r.types().migrations_of(n) == Seq::<MigrationRule>::empty(),
    {
        let mut validator = Self::new();
        let mut required: Vec<String> = Vec::new();
        required.push(String::from_str("route_type"));
        required.push(String::from_str("body"));
        required.push(String::from_str("content_type"));
        let mut optional: Vec<String> = Vec::new();
        optional.push(String::from_str("extra_data"));
        let mut supported: Vec<String> = Vec::new();
        supported.push(String::from_str("text/plain"));
        supported.push(String::from_str("text/html"));
        supported.push(String::from_str("application/json"));
        supported.push(String::from_str("application/xml"));
        let metadata = RouteTypeMetadata {
            route_type: String::from_str("SimpleRoute"),
            version: String::from_str("1.0.0"),
            description: String::from_str("Simple route with basic response"),
            required_fields: required,
            optional_fields: optional,
            supported_content_types: supported,
            requires_extra_data: false,
        };
        proof {
            reveal_strlit("SimpleRoute");
            assert(strings_view(metadata.required_fields@) =~= seq!["route_type"@, "body"@, "content_type"@]);
            assert(strings_view(metadata.optional_fields@) =~= seq!["extra_data"@]);
            assert(strings_view(metadata.supported_content_types@)
                =~= seq!["text/plain"@, "text/html"@, "application/json"@, "application/xml"@]);
        }
        let ghost before = validator.types();
        let registered = validator.metadata_registry.register_metadata(metadata);
        proof {
            assert(registered is Ok);
            assert forall|n: Seq<char>| n != "SimpleRoute"@ implies !(#[trigger] validator.types().has_metadata(n)) by {
                assert(!before.has_metadata(n));
            }
            assert forall|n: Seq<char>| #[trigger] validator.types().migrations_of(n) == Seq::<MigrationRule>::empty() by {
                assert(before.migrations_of(n) == Seq::<MigrationRule>::empty());
            }
        }
        validator
    }

    /// Registers type metadata (see `RouteTypeRegistry::register_metadata`).
    pub fn register_type_metadata(&mut self, metadata: RouteTypeMetadata) -> (r: Result<(), ValidationError>)
        ensures
            metadata.route_type@.len() == 0 ==> (r matches Err(e) && e@ == (ValidationErrorKind::MissingField, "type_name"@, Seq::<char>::empty())),
            metadata.route_type@.len() > 0 && metadata.required_fields@.len() == 0
                ==> (r matches Err(e) && e@ == (ValidationErrorKind::MissingField, "required_fields"@, Seq::<char>::empty())),
            metadata.route_type@.len() > 0 && metadata.required_fields@.len() > 0 ==> r is Ok,
            r is Ok ==> final(self).types().has_metadata(metadata.route_type@)
                && final(self).types().metadata_of(metadata.route_type@) == metadata,
            r is Ok ==> forall|n: Seq<char>| n != metadata.route_type@ ==>
                #[trigger] final(self).types().has_metadata(n) == old(self).types().has_metadata(n)
                && (old(self).types().has_metadata(n) ==> final(self).types().metadata_of(n) == old(self).types().metadata_of(n)),
            r is Err ==> forall|n: Seq<char>| #[trigger] final(self).types().has_metadata(n) == old(self).types().has_metadata(n)
                && (old(self).types().has_metadata(n) ==> final(self).types().metadata_of(n) == old(self).types().metadata_of(n)),
            forall|n: Seq<char>| #[trigger] final(self).types().migrations_of(n) == old(self).types().migrations_of(n),
    {
        self.metadata_registry.register_metadata(metadata)
    }

    /// Checks a route path: it must be non-empty, start with `/`, and not contain `..`.
    pub fn validate_path(&self, path: &str) -> (r: Result<(), ValidationError>)
        ensures
            match path_fault(path@) {
                Some(m) => r matches Err(e) && e@ == (ValidationErrorKind::InvalidPath, m, Seq::<char>::empty()),
                None => r is Ok,
            },
    {
        if path.unicode_len() == 0 {
            return Err(ValidationError::InvalidPath(String::from_str("Path cannot be empty")));
        }
        if !starts_with_char(path, '/') {
            return Err(ValidationError::InvalidPath(String::from_str("Path must start with '/'")));
        }
        if contains_str(path, "..") {
            return Err(ValidationError::InvalidPath(String::from_str("Path cannot contain '..'")));
        }
        Ok(())
    }

    /// Checks a content type against the types `metadata` supports (any type, if it names
    /// none).
    pub fn validate_content_type(&self, content_type: &str, metadata: &RouteTypeMetadata) -> (r: Result<(), ValidationError>)
        ensures
            match content_fault(content_type@, strings_view(metadata.supported_content_types@)) {
                Some(m) => r matches Err(e) && e@ == (ValidationErrorKind::InvalidContentType, m, Seq::<char>::empty()),
                None => r is Ok,
            },
            (exists|j: int| 0 <= j < metadata.supported_content_types@.len()
                && #[trigger] metadata.supported_content_types@[j]@ == content_type@) ==> r is Ok,
            metadata.supported_content_types@.len() > 0 && (forall|j: int| 0 <= j < metadata.supported_content_types@.len()
                ==> #[trigger] metadata.supported_content_types@[j]@ != content_type@) ==> r is Err,
    {
        proof {
            let v = metadata.supported_content_types@;
            let sv = strings_view(v);
            lemma_content_fault(content_type@, sv);
            assert(sv.len() == v.len());
            if exists|j: int| 0 <= j < v.len() && #[trigger] v[j]@ == content_type@ {
                let j = choose|j: int| 0 <= j < v.len() && #[trigger] v[j]@ == content_type@;
                assert(sv[j] == v[j]@);
            }
            if v.len() > 0 && (forall|j: int| 0 <= j < v.len() ==> #[trigger] v[j]@ != content_type@) {
                assert forall|j: int| 0 <= j < sv.len() implies #[trigger] sv[j] != content_type@ by {
                    assert(sv[j] == v[j]@);
                }
            }
        }
        let supported = &metadata.supported_content_types;
        let ghost sv = strings_view(supported@);
        if supported.len() == 0 {
            assert(sv.len() == 0);
            return Ok(());
        }
        let mut i: usize = 0;
        while i < supported.len()
            invariant
                sv == strings_view(supported@),
                supported@ == metadata.supported_content_types@,
                i <= supported@.len(),
                forall|j: int| 0 <= j < i ==> sv[j] != content_type@,
            decreases supported@.len() - i,
        {
            if str_eq(supported[i].as_str(), content_type) {
                assert(sv[i as int] == content_type@);
                assert(sv.contains(content_type@));
                return Ok(());
            }
            i = i + 1;
        }
        assert(!sv.contains(content_type@));
        let listed = debug_list(supported);
        let message = String::from_str("Content type '").concat(content_type)
            .concat("' is not supported. Supported types: ").concat(listed.as_str());
        Err(ValidationError::InvalidContentType(message))
    }

    /// Checks extra data: present where `metadata` requires it, and JSON when present.
    pub fn validate_extra_data(&self, extra_data: &Option<String>, metadata: &RouteTypeMetadata) -> (r: Result<(), ValidationError>)
        ensures
            match extra_fault(opt_view(*extra_data), metadata.requires_extra_data) {
                Some(m) => r matches Err(e) && e@ == (ValidationErrorKind::ExtraDataValidationError, m, Seq::<char>::empty()),
                None => r is Ok,
            },
    {
        if metadata.requires_extra_data && extra_data.is_none() {
            return Err(ValidationError::ExtraDataValidationError(String::from_str("This route type requires extra_data")));
        }
        match extra_data {
            Some(data) => json_check_outcome(json_error(data.as_str())),
            None => Ok(()),
        }
    }

    /// Validates `route` at `path`: the path, then that the route registry knows its type
    /// and that metadata is registered for it, then its content type and extra data.
    pub fn validate_route<F>(&self, path: &str, route: &SerializableRoute, registry: &RouteRegistry<F>) -> (r: Result<(), ValidationError>)
        ensures
            match self.route_fault(path@, *route, registry.has(route.route_type@)) {
                Some(f) => r matches Err(e) && e@ == f,
                None => r is Ok,
            },
    {
        match self.validate_path(path) {
            Err(e) => return Err(e),
            Ok(()) => {},
        }
        if !registry.is_registered(route.route_type.as_str()) {
            return Err(ValidationError::UnknownRouteType(route.route_type.clone()));
        }
        let metadata = match self.metadata_registry.get_metadata(route.route_type.as_str()) {
            Some(m) => m,
            None => return Err(ValidationError::UnknownRouteType(route.route_type.clone())),
        };
        match self.validate_content_type(route.content_type.as_str(), metadata) {
            Err(e) => return Err(e),
            Ok(()) => {},
        }
        self.validate_extra_data(&route.extra_data, metadata)
    }

    /// Validates every route of `routes`; the errors of the invalid ones, in order.
    pub fn validate_routes<F>(&self, routes: &Vec<(String, SerializableRoute)>, registry: &RouteRegistry<F>)
        -> (r: Result<(), Vec<ValidationError>>)
        ensures
            self.route_faults(routes@, *registry, routes@.len() as int).len() == 0 ==> r is Ok,
            self.route_faults(routes@, *registry, routes@.len() as int).len() > 0 ==> (r matches Err(v)
                && v@.len() == self.route_faults(routes@, *registry, routes@.len() as int).len()
                && forall|k: int| 0 <= k < v@.len() ==> (#[trigger] v@[k])@ == self.route_faults(routes@, *registry, routes@.len() as int)[k]),
            r is Ok <==> self.failing_count(routes@, *registry, routes@.len() as int) == 0,
            r matches Err(v) ==> v@.len() == self.failing_count(routes@, *registry, routes@.len() as int),
    {
        proof { self.lemma_one_fault_per_failing_route(routes@, *registry, routes@.len() as int); }
        let mut errors: Vec<ValidationError> = Vec::new();
        let mut i: usize = 0;
        while i < routes.len()
            invariant
                i <= routes@.len(),
                errors@.len() == self.route_faults(routes@, *registry, i as int).len(),
                forall|k: int| 0 <= k < errors@.len() ==> (#[trigger] errors@[k])@ == self.route_faults(routes@, *registry, i as int)[k],
            decreases routes@.len() - i,
        {
            let (path, route) = (&routes[i].0, &routes[i].1);
            match self.validate_route(path.as_str(), route, registry) {
                Err(e) => {
                    errors.push(e);
                },
                Ok(()) => {},
            }
            i = i + 1;
        }
        if errors.len() == 0 {
            Ok(())
        } else {
            Err(errors)
        }
    }

    /// Whether `route_type` has a migration rule starting from `current_version`.
    pub fn needs_migration(&self, route_type: &str, current_version: &str) -> (r: bool)
        ensures
            r == exists|k: int| 0 <= k < self.types().migrations_of(route_type@).len()
                && (#[trigger] self.types().migrations_of(route_type@)[k]).from_version@ == current_version@,
    {
        let migrations = self.metadata_registry.get_migrations(route_type);
        let mut i: usize = 0;
        while i < migrations.len()
            invariant
                migrations@ == self.types().migrations_of(route_type@),
                i <= migrations@.len(),
                forall|k: int| 0 <= k < i ==> (#[trigger] migrations@[k]).from_version@ != current_version@,
            decreases migrations@.len() - i,
        {
            if str_eq(migrations[i].from_version.as_str(), current_version) {
                assert(migrations@[i as int].from_version@ == current_version@);
                return true;
            }
            i = i + 1;
        }
        false
    }

    /// The migration rules of `route_type` that start from `from_version`, in order.
    pub fn get_available_migrations(&self, route_type: &str, from_version: &str) -> (r: Vec<&MigrationRule>)
        ensures
            r@.len() == rules_from(self.types().migrations_of(route_type@), from_version@,
                self.types().migrations_of(route_type@).len() as int).len(),
            forall|k: int| 0 <= k < r@.len() ==> *(#[trigger] r@[k]) == rules_from(self.types().migrations_of(route_type@),
                from_version@, self.types().migrations_of(route_type@).len() as int)[k],
    {
        let migrations = self.metadata_registry.get_migrations(route_type);
        let ghost all = migrations@;
        let mut r: Vec<&MigrationRule> = Vec::new();
        let mut i: usize = 0;
        while i < migrations.len()
            invariant
                all == migrations@,
                i <= migrations@.len(),
                r@.len() == rules_from(all, from_version@, i as int).len(),
                forall|k: int| 0 <= k < r@.len() ==> *(#[trigger] r@[k]) == rules_from(all, from_version@, i as int)[k],
            decreases migrations@.len() - i,
        {
            if str_eq(migrations[i].from_version.as_str(), from_version) {
                r.push(&migrations[i]);
            }
            i = i + 1;
        }
        r
    }
}

impl Default for RouteValidator {
    fn default() -> (r: Self)
        ensures
            r.types().has_metadata("SimpleRoute"@),
    {
        Self::with_defaults()
    }
}

} // verus!
