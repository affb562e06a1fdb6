//! Data-model enums: article and user states, dynamic route kinds, and small records.
use vstd::prelude::*;
use crate::text::str_eq;

verus! {

/// What `str::to_lowercase` makes of a text (Unicode lowercase mapping).
pub uninterp spec fn lowercase_of(s: Seq<char>) -> Seq<char>;

/// Whether every character of `s` is an ASCII lowercase letter or `_`.
pub open spec fn is_lower_word(s: Seq<char>) -> bool {
    forall|i: int| 0 <= i < s.len() ==> ('a' <= #[trigger] s[i] <= 'z' || s[i] == '_')
}

/// Whether every character of `s` is ASCII.
pub open spec fn is_ascii_text(s: Seq<char>) -> bool {
    forall|i: int| 0 <= i < s.len() ==> (#[trigger] s[i] as u32) < 128
}

/// The ASCII lowercase of a character: `A`..`Z` become `a`..`z`, the rest stays.
pub open spec fn ascii_lower(c: char) -> char {
    if 'A' <= c <= 'Z' { ((c as u32) + 32) as char } else { c }
}

/// Calls `str::to_lowercase`. Trusted: the result is `lowercase_of` the text; text made of
/// ASCII lowercase letters and `_` is left as it is (it has no uppercase to map); in ASCII
/// text each of `A`..`Z` becomes its lowercase letter and every other character stays (the
/// Unicode lowercase mapping of the ASCII range). The rest of the Unicode mapping is std's
/// and is left unsaid.
#[verifier::external_body]
fn to_lowercase(s: &str) -> (r: String)
    ensures
        r@ == lowercase_of(s@),
        is_lower_word(s@) ==> r@ == s@,
        is_ascii_text(s@) ==> r@ == s@.map_values(|c: char| ascii_lower(c)),
{
    s.to_lowercase()
}
/// Article status.
#[derive(Debug, Clone, Copy, PartialEq, Eq, Structural, Hash)]
pub enum PassageStatus {
    /// Published.
    Published,
    /// Draft.
    Draft,
    /// Archived.
    Archived,
    /// Deleted (soft).
    Deleted,
}

/// The lowercase name of each `PassageStatus`.
pub open spec fn passage_status_text(v: PassageStatus) -> Seq<char> {
    match v {
        PassageStatus::Published => "published"@,
        PassageStatus::Draft => "draft"@,
        PassageStatus::Archived => "archived"@,
        PassageStatus::Deleted => "deleted"@,
    }
}

/// The `PassageStatus` a lowercase name stands for.
pub open spec fn passage_status_named(l: Seq<char>) -> Option<PassageStatus> {
    if l == "published"@ {
        Some(PassageStatus::Published)
    } else if l == "draft"@ {
        Some(PassageStatus::Draft)
    } else if l == "archived"@ {
        Some(PassageStatus::Archived)
    } else if l == "deleted"@ {
        Some(PassageStatus::Deleted)
    } else {
        None
    }
}

impl PassageStatus {
    /// Parses a name, ignoring case: the text is lowercased (`str::to_lowercase`) and
    /// compared with the names.
    pub fn from_str(s: &str) -> (r: Option<Self>)
        ensures
            r == passage_status_named(lowercase_of(s@)),
            is_ascii_text(s@) ==> r == passage_status_named(s@.map_values(|c: char| ascii_lower(c))),
            is_lower_word(s@) ==> r == passage_status_named(s@),
    {
        let l = to_lowercase(s);
        if str_eq(l.as_str(), "published") {
            proof { reveal_strlit("published"); }
            return Some(PassageStatus::Published);
        }
        if str_eq(l.as_str(), "draft") {
            proof { reveal_strlit("draft"); }
            return Some(PassageStatus::Draft);
        }
        if str_eq(l.as_str(), "archived") {
            proof { reveal_strlit("archived"); }
            return Some(PassageStatus::Archived);
        }
        if str_eq(l.as_str(), "deleted") {
            proof { reveal_strlit("deleted"); }
            return Some(PassageStatus::Deleted);
        }
        proof {
            reveal_strlit("published");
            reveal_strlit("draft");
            reveal_strlit("archived");
            reveal_strlit("deleted");
        }
        None
    }

    /// The lowercase name (what `Display` and `AsRef<str>` give).
    pub fn as_str(&self) -> (r: &'static str)
        ensures
            r@ == passage_status_text(*self),
    {
        match self {
            PassageStatus::Published => "published",
            PassageStatus::Draft => "draft",
            PassageStatus::Archived => "archived",
            PassageStatus::Deleted => "deleted",
        }
    }
}

/// Who may see an article.
#[derive(Debug, Clone, Copy, PartialEq, Eq, Structural, Hash)]
pub enum PassageVisibility {
    /// Anyone.
    Public,
    /// Only its author.
    Private,
    /// Whoever has the password.
    Protected,
}

/// The lowercase name of each `PassageVisibility`.
pub open spec fn passage_visibility_text(v: PassageVisibility) -> Seq<char> {
    match v {
        PassageVisibility::Public => "public"@,
        PassageVisibility::Private => "private"@,
        PassageVisibility::Protected => "protected"@,
    }
}

/// The `PassageVisibility` a lowercase name stands for.
pub open spec fn passage_visibility_named(l: Seq<char>) -> Option<PassageVisibility> {
    if l == "public"@ {
        Some(PassageVisibility::Public)
    } else if l == "private"@ {
        Some(PassageVisibility::Private)
    } else if l == "protected"@ {
        Some(PassageVisibility::Protected)
    } else {
        None
    }
}

impl PassageVisibility {
    /// Parses a name, ignoring case: the text is lowercased (`str::to_lowercase`) and
    /// compared with the names.
    pub fn from_str(s: &str) -> (r: Option<Self>)
        ensures
            r == passage_visibility_named(lowercase_of(s@)),
            is_ascii_text(s@) ==> r == passage_visibility_named(s@.map_values(|c: char| ascii_lower(c))),
            is_lower_word(s@) ==> r == passage_visibility_named(s@),
    {
        let l = to_lowercase(s);
        if str_eq(l.as_str(), "public") {
            proof { reveal_strlit("public"); }
            return Some(PassageVisibility::Public);
        }
        if str_eq(l.as_str(), "private") {
            proof { reveal_strlit("private"); }
            return Some(PassageVisibility::Private);
        }
        if str_eq(l.as_str(), "protected") {
            proof { reveal_strlit("protected"); }
            return Some(PassageVisibility::Protected);
        }
        proof {
            reveal_strlit("public");
            reveal_strlit("private");
            reveal_strlit("protected");
        }
        None
    }

    /// The lowercase name (what `Display` and `AsRef<str>` give).
    pub fn as_str(&self) -> (r: &'static str)
        ensures
            r@ == passage_visibility_text(*self),
    {
        match self {
            PassageVisibility::Public => "public",
            PassageVisibility::Private => "private",
            PassageVisibility::Protected => "protected",
        }
    }
}

/// A user's role.
#[derive(Debug, Clone, Copy, PartialEq, Eq, Structural, Hash)]
pub enum UserRole {
    /// Administrator.
    Admin,
    /// Editor.
    Editor,
    /// Subscriber.
    Subscriber,
}

/// The lowercase name of each `UserRole`.
pub open spec fn user_role_text(v: UserRole) -> Seq<char> {
    match v {
        UserRole::Admin => "admin"@,
        UserRole::Editor => "editor"@,
        UserRole::Subscriber => "subscriber"@,
    }
}

/// The `UserRole` a lowercase name stands for.
pub open spec fn user_role_named(l: Seq<char>) -> Option<UserRole> {
    if l == "admin"@ {
        Some(UserRole::Admin)
    } else if l == "editor"@ {
        Some(UserRole::Editor)
    } else if l == "subscriber"@ {
        Some(UserRole::Subscriber)
    } else {
        None
    }
}

impl UserRole {
    /// Parses a name, ignoring case: the text is lowercased (`str::to_lowercase`) and
    /// compared with the names.
    pub fn from_str(s: &str) -> (r: Option<Self>)
        ensures
            r == user_role_named(lowercase_of(s@)),
            is_ascii_text(s@) ==> r == user_role_named(s@.map_values(|c: char| ascii_lower(c))),
            is_lower_word(s@) ==> r == user_role_named(s@),
    {
        let l = to_lowercase(s);
        if str_eq(l.as_str(), "admin") {
            proof { reveal_strlit("admin"); }
            return Some(UserRole::Admin);
        }
        if str_eq(l.as_str(), "editor") {
            proof { reveal_strlit("editor"); }
            return Some(UserRole::Editor);
        }
        if str_eq(l.as_str(), "subscriber") {
            proof { reveal_strlit("subscriber"); }
            return Some(UserRole::Subscriber);
        }
        proof {
            reveal_strlit("admin");
            reveal_strlit("editor");
            reveal_strlit("subscriber");
        }
        None
    }

    /// The lowercase name (what `Display` and `AsRef<str>` give).
    pub fn as_str(&self) -> (r: &'static str)
        ensures
            r@ == user_role_text(*self),
    {
        match self {
            UserRole::Admin => "admin",
            UserRole::Editor => "editor",
            UserRole::Subscriber => "subscriber",
        }
    }
}

/// A user account's status.
#[derive(Debug, Clone, Copy, PartialEq, Eq, Structural, Hash)]
pub enum UserStatus {
    /// Active.
    Active,
    /// Disabled.
    Disabled,
    /// Deleted.
    Deleted,
}

/// The lowercase name of each `UserStatus`.
pub open spec fn user_status_text(v: UserStatus) -> Seq<char> {
    match v {
        UserStatus::Active => "active"@,
        UserStatus::Disabled => "disabled"@,
        UserStatus::Deleted => "deleted"@,
    }
}

/// The `UserStatus` a lowercase name stands for.
pub open spec fn user_status_named(l: Seq<char>) -> Option<UserStatus> {
    if l == "active"@ {
        Some(UserStatus::Active)
    } else if l == "disabled"@ {
        Some(UserStatus::Disabled)
    } else if l == "deleted"@ {
        Some(UserStatus::Deleted)
    } else {
        None
    }
}

impl UserStatus {
    /// Parses a name, ignoring case: the text is lowercased (`str::to_lowercase`) and
    /// compared with the names.
    pub fn from_str(s: &str) -> (r: Option<Self>)
        ensures
            r == user_status_named(lowercase_of(s@)),
            is_ascii_text(s@) ==> r == user_status_named(s@.map_values(|c: char| ascii_lower(c))),
            is_lower_word(s@) ==> r == user_status_named(s@),
    {
        let l = to_lowercase(s);
        if str_eq(l.as_str(), "active") {
            proof { reveal_strlit("active"); }
            return Some(UserStatus::Active);
        }
        if str_eq(l.as_str(), "disabled") {
            proof { reveal_strlit("disabled"); }
            return Some(UserStatus::Disabled);
        }
        if str_eq(l.as_str(), "deleted") {
            proof { reveal_strlit("deleted"); }
            return Some(UserStatus::Deleted);
        }
        proof {
            reveal_strlit("active");
            reveal_strlit("disabled");
            reveal_strlit("deleted");
        }
        None
    }

    /// The lowercase name (what `Display` and `AsRef<str>` give).
    pub fn as_str(&self) -> (r: &'static str)
        ensures
            r@ == user_status_text(*self),
    {
        match self {
            UserStatus::Active => "active",
            UserStatus::Disabled => "disabled",
            UserStatus::Deleted => "deleted",
        }
    }
}

/// Where a dynamic route's content lives.
#[derive(Debug, Clone, Copy, PartialEq, Eq, Structural, Hash)]
pub enum RouteType {
    /// In memory.
    Memory,
    /// In a file.
    File,
    /// In the database.
    Database,
}

/// The lowercase name of each `RouteType`.
pub open spec fn route_type_text(v: RouteType) -> Seq<char> {
    match v {
        RouteType::Memory => "memory"@,
        RouteType::File => "file"@,
        RouteType::Database => "database"@,
    }
}

/// The `RouteType` a lowercase name stands for.
pub open spec fn route_type_named(l: Seq<char>) -> Option<RouteType> {
    if l == "memory"@ {
        Some(RouteType::Memory)
    } else if l == "file"@ {
        Some(RouteType::File)
    } else if l == "database"@ {
        Some(RouteType::Database)
    } else {
        None
    }
}

impl RouteType {
    /// Parses a name, ignoring case: the text is lowercased (`str::to_lowercase`) and
    /// compared with the names.
    pub fn from_str(s: &str) -> (r: Option<Self>)
        ensures
            r == route_type_named(lowercase_of(s@)),
            is_ascii_text(s@) ==> r == route_type_named(s@.map_values(|c: char| ascii_lower(c))),
            is_lower_word(s@) ==> r == route_type_named(s@),
    {
        let l = to_lowercase(s);
        if str_eq(l.as_str(), "memory") {
            proof { reveal_strlit("memory"); }
            return Some(RouteType::Memory);
        }
        if str_eq(l.as_str(), "file") {
            proof { reveal_strlit("file"); }
            return Some(RouteType::File);
        }
        if str_eq(l.as_str(), "database") {
            proof { reveal_strlit("database"); }
            return Some(RouteType::Database);
        }
        proof {
            reveal_strlit("memory");
            reveal_strlit("file");
            reveal_strlit("database");
        }
        None
    }

    /// The lowercase name (what `Display` and `AsRef<str>` give).
    pub fn as_str(&self) -> (r: &'static str)
        ensures
            r@ == route_type_text(*self),
    {
        match self {
            RouteType::Memory => "memory",
            RouteType::File => "file",
            RouteType::Database => "database",
        }
    }
}

/// How a dynamic route answers.
#[derive(Debug, Clone, Copy, PartialEq, Eq, Structural, Hash)]
pub enum HandlerType {
    /// Redirects.
    Redirect,
    /// Serves static content.
    Static,
    /// Renders a template.
    Template,
    /// Proxies.
    Proxy,
    /// A custom handler.
    Custom,
}

/// The lowercase name of each `HandlerType`.
pub open spec fn handler_type_text(v: HandlerType) -> Seq<char> {
    match v {
        HandlerType::Redirect => "redirect"@,
        HandlerType::Static => "static"@,
        HandlerType::Template => "template"@,
        HandlerType::Proxy => "proxy"@,
        HandlerType::Custom => "custom"@,
    }
}

/// The `HandlerType` a lowercase name stands for.
pub open spec fn handler_type_named(l: Seq<char>) -> Option<HandlerType> {
    if l == "redirect"@ {
        Some(HandlerType::Redirect)
    } else if l == "static"@ {
        Some(HandlerType::Static)
    } else if l == "template"@ {
        Some(HandlerType::Template)
    } else if l == "proxy"@ {
        Some(HandlerType::Proxy)
    } else if l == "custom"@ {
        Some(HandlerType::Custom)
    } else {
        None
    }
}

impl HandlerType {
    /// Parses a name, ignoring case: the text is lowercased (`str::to_lowercase`) and
    /// compared with the names.
    pub fn from_str(s: &str) -> (r: Option<Self>)
        ensures
            r == handler_type_named(lowercase_of(s@)),
            is_ascii_text(s@) ==> r == handler_type_named(s@.map_values(|c: char| ascii_lower(c))),
            is_lower_word(s@) ==> r == handler_type_named(s@),
    {
        let l = to_lowercase(s);
        if str_eq(l.as_str(), "redirect") {
            proof { reveal_strlit("redirect"); }
            return Some(HandlerType::Redirect);
        }
        if str_eq(l.as_str(), "static") {
            proof { reveal_strlit("static"); }
            return Some(HandlerType::Static);
        }
        if str_eq(l.as_str(), "template") {
            proof { reveal_strlit("template"); }
            return Some(HandlerType::Template);
        }
        if str_eq(l.as_str(), "proxy") {
            proof { reveal_strlit("proxy"); }
            return Some(HandlerType::Proxy);
        }
        if str_eq(l.as_str(), "custom") {
            proof { reveal_strlit("custom"); }
            return Some(HandlerType::Custom);
        }
        proof {
            reveal_strlit("redirect");
            reveal_strlit("static");
            reveal_strlit("template");
            reveal_strlit("proxy");
            reveal_strlit("custom");
        }
        None
    }

    /// The lowercase name (what `Display` and `AsRef<str>` give).
    pub fn as_str(&self) -> (r: &'static str)
        ensures
            r@ == handler_type_text(*self),
    {
        match self {
            HandlerType::Redirect => "redirect",
            HandlerType::Static => "static",
            HandlerType::Template => "template",
            HandlerType::Proxy => "proxy",
            HandlerType::Custom => "custom",
        }
    }
}

impl PassageStatus {
    /// Whether the article is published.
    pub fn is_published(&self) -> (r: bool)
        ensures
            r == (*self == PassageStatus::Published),
    {
        matches!(self, PassageStatus::Published)
    }

    /// Whether the article is visible (published).
    pub fn is_visible(&self) -> (r: bool)
        ensures
            r == (*self == PassageStatus::Published),
    {
        matches!(self, PassageStatus::Published)
    }
}

impl PassageVisibility {
    /// Whether anyone may see the article.
    pub fn is_public(&self) -> (r: bool)
        ensures
            r == (*self == PassageVisibility::Public),
    {
        matches!(self, PassageVisibility::Public)
    }

    /// Whether seeing the article needs authentication (private or protected).
    pub fn requires_auth(&self) -> (r: bool)
        ensures
            r == (*self == PassageVisibility::Private || *self == PassageVisibility::Protected),
    {
        matches!(self, PassageVisibility::Private | PassageVisibility::Protected)
    }
}

impl UserRole {
    /// Whether the role is administrator.
    pub fn is_admin(&self) -> (r: bool)
        ensures
            r == (*self == UserRole::Admin),
    {
        matches!(self, UserRole::Admin)
    }

    /// Whether the role may edit (administrator or editor).
    pub fn can_edit(&self) -> (r: bool)
        ensures
            r == (*self == UserRole::Admin || *self == UserRole::Editor),
    {
        matches!(self, UserRole::Admin | UserRole::Editor)
    }
}

impl UserStatus {
    /// Whether the account is active.
    pub fn is_active(&self) -> (r: bool)
        ensures
            r == (*self == UserStatus::Active),
    {
        matches!(self, UserStatus::Active)
    }
}

/// What decides who may see an article: its status and its visibility.
#[derive(Debug, Clone, Copy)]
pub struct PassageAccess {
    pub status: PassageStatus,
    pub visibility: PassageVisibility,
}

impl PassageAccess {
    /// Whether anyone may see the article: it is published and public.
    pub fn is_visible(&self) -> (r: bool)
        ensures
            r == (self.status == PassageStatus::Published && self.visibility == PassageVisibility::Public),
    {
        self.status.is_published() && self.visibility.is_public()
    }

    /// Whether seeing the article needs authentication: it is not published, or it is
    /// private or protected.
    pub fn requires_auth(&self) -> (r: bool)
        ensures
            r == (self.status != PassageStatus::Published || self.visibility == PassageVisibility::Private
                || self.visibility == PassageVisibility::Protected),
    {
        !self.status.is_published() || self.visibility.requires_auth()
    }
}

/// What decides what a user may do: the role and the account status.
#[derive(Debug, Clone, Copy)]
pub struct UserAccess {
    pub role: UserRole,
    pub status: UserStatus,
}

impl UserAccess {
    /// Whether the account is active.
    pub fn is_active(&self) -> (r: bool)
        ensures
            r == (self.status == UserStatus::Active),
    {
        self.status.is_active()
    }

    /// Whether the user is an administrator.
    pub fn is_admin(&self) -> (r: bool)
        ensures
            r == (self.role == UserRole::Admin),
    {
        self.role.is_admin()
    }

    /// Whether the user may edit (administrator or editor).
    pub fn can_edit(&self) -> (r: bool)
        ensures
            r == (self.role == UserRole::Admin || self.role == UserRole::Editor),
    {
        self.role.can_edit()
    }
}

/// Whether a dynamic route is switched on.
#[derive(Debug, Clone, Copy)]
pub struct RouteAvailability {
    pub enabled: bool,
}

impl RouteAvailability {
    /// Whether the route may serve requests: it is enabled.
    pub fn is_available(&self) -> (r: bool)
        ensures
            r == self.enabled,
    {
        self.enabled
    }
}

/// The position of the last `c` among the first `n` characters of `s`, or -1.
pub open spec fn find_last(s: Seq<char>, c: char, n: int) -> int
    decreases n,
{
    if n <= 0 {
        -1
    } else if s[n - 1] == c {
        n - 1
    } else {
        find_last(s, c, n - 1)
    }
}

/// How a listing cursor splits into its time stamp and its id: at the first `|` when there
/// is one, else at the last `:` (the time stamp itself holds colons); `None` when it holds
/// neither.
pub open spec fn cursor_parts(s: Seq<char>) -> Option<(Seq<char>, Seq<char>)> {
    let bar = crate::text::find_from(s, '|', 0);
    if bar < s.len() {
        Some((s.subrange(0, bar), s.subrange(bar + 1, s.len() as int)))
    } else {
        let colon = find_last(s, ':', s.len() as int);
        if colon >= 0 {
            Some((s.subrange(0, colon), s.subrange(colon + 1, s.len() as int)))
        } else {
            None
        }
    }
}

/// Splits a listing cursor `created_at|id` (or the older `created_at:id`) into its two parts.
pub fn parse_cursor(cursor: &str) -> (r: Option<(String, String)>)
    ensures
        match cursor_parts(cursor@) {
            Some((a, b)) => r matches Some((x, y)) && x@ == a && y@ == b,
            None => r is None,
        },
{
    let n = cursor.unicode_len();
    match crate::text::find_char_index(cursor, '|') {
        Some(pos) => {
            Some((crate::text::substring(cursor, 0, pos), crate::text::substring(cursor, pos + 1, n)))
        },
        None => {
            let v = crate::text::chars_of(cursor);
            let mut k: usize = v.len();
            while k > 0
                invariant
                    v@ == cursor@,
                    n == cursor@.len(),
                    crate::text::find_from(cursor@, '|', 0) == cursor@.len(),
                    k <= v@.len(),
                    find_last(cursor@, ':', v@.len() as int) == find_last(cursor@, ':', k as int),
                decreases k,
            {
                if v[k - 1] == ':' {
                    let a = crate::text::substring(cursor, 0, k - 1);
                    let b = crate::text::substring(cursor, k, n);
                    return Some((a, b));
                }
                k = k - 1;
            }
            None
        },
    }
}

/// Every `PassageStatus` has a lowercase name, and parsing that name gives it back.
pub proof fn lemma_passage_status_name_round_trip(v: PassageStatus)
    ensures
        is_lower_word(passage_status_text(v)),
        passage_status_named(passage_status_text(v)) == Some(v),
{
    match v {
        PassageStatus::Published => {
            reveal_strlit("published");
        },
        PassageStatus::Draft => {
            reveal_strlit("draft");
            reveal_strlit("published");
            assert("draft"@.len() != "published"@.len());
        },
        PassageStatus::Archived => {
            reveal_strlit("archived");
            reveal_strlit("published");
            assert("archived"@.len() != "published"@.len());
            reveal_strlit("draft");
            assert("archived"@.len() != "draft"@.len());
        },
        PassageStatus::Deleted => {
            reveal_strlit("deleted");
            reveal_strlit("published");
            assert("deleted"@.len() != "published"@.len());
            reveal_strlit("draft");
            assert("deleted"@.len() != "draft"@.len());
            reveal_strlit("archived");
            assert("deleted"@.len() != "archived"@.len());
        },
    }
}

/// The ASCII uppercase of a character: `a`..`z` become `A`..`Z`, the rest stays.
pub open spec fn ascii_upper(c: char) -> char {
    if 'a' <= c <= 'z' { ((c as u32) - 32) as char } else { c }
}

/// Uppercasing a word of ASCII lowercase letters and `_` gives ASCII text that lowercases
/// back to the word.
pub proof fn lemma_upper_then_lower(s: Seq<char>)
    requires
        is_lower_word(s),
    ensures
        is_ascii_text(s.map_values(|c: char| ascii_upper(c))),
        s.map_values(|c: char| ascii_upper(c)).map_values(|c: char| ascii_lower(c)) == s,
{
    let u = s.map_values(|c: char| ascii_upper(c));
    assert forall|i: int| 0 <= i < u.len() implies (#[trigger] u[i] as u32) < 128 && ascii_lower(u[i]) == s[i] by {
        let c = s[i];
        assert('a' <= c <= 'z' || c == '_');
        if 'a' <= c <= 'z' {
            let x = (c as u32) - 32;
            assert(97 <= c as u32 <= 122);
            assert((x as char) as u32 == x);
            assert(u[i] == x as char);
            assert(ascii_lower(u[i]) == ((x + 32) as char));
            vstd::utf8::char_u32_cast(c, c as u32);
        }
    }
    assert(u.map_values(|c: char| ascii_lower(c)) =~= s);
}

/// The uppercase form of each `PassageStatus` name is ASCII and stands for that status once
/// lowercased, so `from_str` parses it.
pub proof fn lemma_passage_status_upper_name(v: PassageStatus)
    ensures
        is_ascii_text(passage_status_text(v).map_values(|c: char| ascii_upper(c))),
        passage_status_named(passage_status_text(v).map_values(|c: char| ascii_upper(c))
            .map_values(|c: char| ascii_lower(c))) == Some(v),
{
    lemma_passage_status_name_round_trip(v);
    lemma_upper_then_lower(passage_status_text(v));
}

/// Every `PassageVisibility` has a lowercase name, and parsing that name gives it back.
pub proof fn lemma_passage_visibility_name_round_trip(v: PassageVisibility)
    ensures
        is_lower_word(passage_visibility_text(v)),
        passage_visibility_named(passage_visibility_text(v)) == Some(v),
{
    match v {
        PassageVisibility::Public => {
            reveal_strlit("public");
        },
        PassageVisibility::Private => {
            reveal_strlit("private");
            reveal_strlit("public");
            assert("private"@.len() != "public"@.len());
        },
        PassageVisibility::Protected => {
            reveal_strlit("protected");
            reveal_strlit("public");
            assert("protected"@.len() != "public"@.len());
            reveal_strlit("private");
            assert("protected"@.len() != "private"@.len());
        },
    }
}

/// Every `UserRole` has a lowercase name, and parsing that name gives it back.
pub proof fn lemma_user_role_name_round_trip(v: UserRole)
    ensures
        is_lower_word(user_role_text(v)),
        user_role_named(user_role_text(v)) == Some(v),
{
    match v {
        UserRole::Admin => {
            reveal_strlit("admin");
        },
        UserRole::Editor => {
            reveal_strlit("editor");
            reveal_strlit("admin");
            assert("editor"@.len() != "admin"@.len());
        },
        UserRole::Subscriber => {
            reveal_strlit("subscriber");
            reveal_strlit("admin");
            assert("subscriber"@.len() != "admin"@.len());
            reveal_strlit("editor");
            assert("subscriber"@.len() != "editor"@.len());
        },
    }
}

/// Every `UserStatus` has a lowercase name, and parsing that name gives it back.
pub proof fn lemma_user_status_name_round_trip(v: UserStatus)
    ensures
        is_lower_word(user_status_text(v)),
        user_status_named(user_status_text(v)) == Some(v),
{
    match v {
        UserStatus::Active => {
            reveal_strlit("active");
        },
        UserStatus::Disabled => {
            reveal_strlit("disabled");
            reveal_strlit("active");
            assert("disabled"@.len() != "active"@.len());
        },
        UserStatus::Deleted => {
            reveal_strlit("deleted");
            reveal_strlit("active");
            assert("deleted"@.len() != "active"@.len());
            reveal_strlit("disabled");
            assert("deleted"@.len() != "disabled"@.len());
        },
    }
}

/// Every `RouteType` has a lowercase name, and parsing that name gives it back.
pub proof fn lemma_route_type_name_round_trip(v: RouteType)
    ensures
        is_lower_word(route_type_text(v)),
        route_type_named(route_type_text(v)) == Some(v),
{
    match v {
        RouteType::Memory => {
            reveal_strlit("memory");
        },
        RouteType::File => {
            reveal_strlit("file");
            reveal_strlit("memory");
            assert("file"@.len() != "memory"@.len());
        },
        RouteType::Database => {
            reveal_strlit("database");
            reveal_strlit("memory");
            assert("database"@.len() != "memory"@.len());
            reveal_strlit("file");
            assert("database"@.len() != "file"@.len());
        },
    }
}

/// Every `HandlerType` has a lowercase name, and parsing that name gives it back.
pub proof fn lemma_handler_type_name_round_trip(v: HandlerType)
    ensures
        is_lower_word(handler_type_text(v)),
        handler_type_named(handler_type_text(v)) == Some(v),
{
    match v {
        HandlerType::Redirect => {
            reveal_strlit("redirect");
        },
        HandlerType::Static => {
            reveal_strlit("static");
            reveal_strlit("redirect");
            assert("static"@.len() != "redirect"@.len());
        },
        HandlerType::Template => {
            reveal_strlit("template");
            reveal_strlit("redirect");
            assert("template"@[0] != "redirect"@[0]);
            reveal_strlit("static");
            assert("template"@.len() != "static"@.len());
        },
        HandlerType::Proxy => {
            reveal_strlit("proxy");
            reveal_strlit("redirect");
            assert("proxy"@.len() != "redirect"@.len());
            reveal_strlit("static");
            assert("proxy"@.len() != "static"@.len());
            reveal_strlit("template");
            assert("proxy"@.len() != "template"@.len());
        },
        HandlerType::Custom => {
            reveal_strlit("custom");
            reveal_strlit("redirect");
            assert("custom"@.len() != "redirect"@.len());
            reveal_strlit("static");
            assert("custom"@[0] != "static"@[0]);
            reveal_strlit("template");
            assert("custom"@.len() != "template"@.len());
            reveal_strlit("proxy");
            assert("custom"@.len() != "proxy"@.len());
        },
    }
}

/// Articles per month.
#[derive(Debug, Clone)]
pub struct ArchiveStats {
    pub year: String,
    pub month: String,
    pub count: i32,
}

/// Articles per tag.
#[derive(Debug, Clone)]
pub struct TagStats {
    pub id: i64,
    pub name: String,
    pub count: i32,
}

/// Query parameters for listing dynamic routes.
#[derive(Debug)]
pub struct ListRoutesQuery {
    pub page: Option<i64>,
    pub limit: Option<i64>,
    pub route_type: Option<RouteType>,
    pub enabled: Option<bool>,
}

/// An article with its number of views.
#[derive(Debug)]
pub struct PopularArticleStats {
    pub id: Option<i64>,
    pub title: String,
    pub author: Option<String>,
    pub view_count: i64,
}

/// Views from one country.
#[derive(Debug)]
pub struct ViewSourceStats {
    pub country: String,
    pub count: i64,
}

/// Views on one day.
#[derive(Debug)]
pub struct ViewTrendStats {
    pub date: String,
    pub count: i64,
}

/// Views from one city.
#[derive(Debug)]
pub struct CityStatsData {
    pub city: String,
    pub country: String,
    pub count: i64,
}

/// Views from one IP address, with where it is and when it was first and last seen.
#[derive(Debug)]
pub struct IPStatsData {
    pub ip: String,
    pub country: String,
    pub city: String,
    pub region: String,
    pub count: i64,
    pub first_visit: String,
    pub last_visit: String,
}

} // verus!
